//! The JSON document that persists the store, and its codec.
//!
//! The store is saved as a pretty-printed JSON array with one object per
//! item, in the fixed shape
//!
//! ```text
//! [
//!   {
//!     "name": "Blue Jacket",
//!     "cost": 89.99,
//!     "uses": ["2024-01-15", "2024-02-03"]
//!   }
//! ]
//! ```
//!
//! Printing and parsing are both defined as specification functions over
//! character sequences; the executable writer and reader are proved to
//! implement them, and parsing is proved to invert printing exactly.  The
//! reader accepts any JSON document denoting the schema: whitespace is
//! free, object keys may come in any order, strings may use every JSON
//! escape, and numbers the full JSON number grammar.

use vstd::prelude::*;

use crate::cost::is_number_char;
use crate::cost::is_number_text;
use crate::date::Date;
use crate::date::date10_of;
use crate::date::date_chars;
use crate::item::ItemModel;
use crate::item::wf_doc;
use crate::item::wf_item;

verus! {

// ---------------------------------------------------------------------------
// The fixed pieces of the document.
// ---------------------------------------------------------------------------
pub open spec fn l_empty() -> Seq<char> {
    "[]"@
}

pub open spec fn l_open() -> Seq<char> {
    "[\n"@
}

pub open spec fn l_close() -> Seq<char> {
    "\n]"@
}

pub open spec fn l_sep() -> Seq<char> {
    ",\n"@
}

pub open spec fn l_quote() -> Seq<char> {
    "\""@
}

pub open spec fn l_dsep() -> Seq<char> {
    ", "@
}

pub open spec fn l_item_head() -> Seq<char> {
    "  {\n    \"name\": \""@
}

pub open spec fn l_cost_head() -> Seq<char> {
    ",\n    \"cost\": "@
}

pub open spec fn l_uses_head() -> Seq<char> {
    ",\n    \"uses\": ["@
}

pub open spec fn l_item_tail() -> Seq<char> {
    "]\n  }"@
}

// ---------------------------------------------------------------------------
// Printing.
// ---------------------------------------------------------------------------
pub open spec fn is_hex_digit(c: char) -> bool {
    crate::date::is_digit(c) || c == 'a' || c == 'b' || c == 'c' || c == 'd' || c == 'e' || c
        == 'f' || c == 'A' || c == 'B' || c == 'C' || c == 'D' || c == 'E' || c == 'F'
}

pub open spec fn hex_val(c: char) -> int {
    if crate::date::is_digit(c) {
        crate::date::digit_val(c)
    } else if c == 'a' || c == 'A' {
        10
    } else if c == 'b' || c == 'B' {
        11
    } else if c == 'c' || c == 'C' {
        12
    } else if c == 'd' || c == 'D' {
        13
    } else if c == 'e' || c == 'E' {
        14
    } else {
        15
    }
}

pub open spec fn hex_char(n: int) -> char {
    if n <= 9 {
        crate::date::digit_char(n)
    } else if n == 10 {
        'a'
    } else if n == 11 {
        'b'
    } else if n == 12 {
        'c'
    } else if n == 13 {
        'd'
    } else if n == 14 {
        'e'
    } else {
        'f'
    }
}

pub proof fn lemma_hex_char_val(n: int)
    requires
        0 <= n < 16,
    ensures
        is_hex_digit(hex_char(n)),
        hex_val(hex_char(n)) == n,
{
    if n <= 9 {
        crate::date::lemma_digit_char_val(n);
    }
}

/// How one character of a name is written inside a JSON string: quote and
/// backslash are escaped, control characters become `\u00XX`, and every
/// other character stands as itself.
pub open spec fn esc_char(c: char) -> Seq<char> {
    if c == '"' {
        seq!['\\', '"']
    } else if c == '\\' {
        seq!['\\', '\\']
    } else if (c as u32) < 32 {
        seq!['\\', 'u', '0', '0', hex_char(c as u32 as int / 16), hex_char(c as u32 as int % 16)]
    } else {
        seq![c]
    }
}

pub open spec fn escape(s: Seq<char>) -> Seq<char>
    decreases s.len(),
{
    if s.len() == 0 {
        Seq::empty()
    } else {
        esc_char(s[0]) + escape(s.drop_first())
    }
}

/// The dates of an item, quoted and comma-separated.
pub open spec fn print_uses(ds: Seq<Date>) -> Seq<char>
    decreases ds.len(),
{
    if ds.len() == 0 {
        Seq::empty()
    } else if ds.len() == 1 {
        l_quote() + (date_chars(ds[0]) + l_quote())
    } else {
        l_quote() + (date_chars(ds[0]) + (l_quote() + (l_dsep() + print_uses(ds.drop_first()))))
    }
}

/// One item as a pretty-printed JSON object.
pub open spec fn print_item(m: ItemModel) -> Seq<char> {
    l_item_head() + (escape(m.name) + (l_quote() + (l_cost_head() + (m.cost + (l_uses_head() + (
    print_uses(m.uses) + l_item_tail()))))))
}

/// One or more items, separated by commas.
pub open spec fn print_items(ms: Seq<ItemModel>) -> Seq<char>
    decreases ms.len(),
{
    if ms.len() <= 1 {
        print_item(ms[0])
    } else {
        print_item(ms[0]) + (l_sep() + print_items(ms.drop_first()))
    }
}

/// The whole document.
pub open spec fn print_doc(ms: Seq<ItemModel>) -> Seq<char> {
    if ms.len() == 0 {
        l_empty()
    } else {
        l_open() + (print_items(ms) + l_close())
    }
}

// ---------------------------------------------------------------------------
// Parsing.  The reader accepts the full JSON language for the document's
// schema: arbitrary whitespace between tokens, object keys in any order,
// the complete string-escape grammar (including `\uXXXX` and surrogate
// pairs), and numbers with fractions and exponents.
// ---------------------------------------------------------------------------
pub open spec fn is_ws(c: char) -> bool {
    c == ' ' || c == '\n' || c == '\t' || c == '\r'
}

/// The suffix after the leading whitespace.
pub open spec fn skip_ws(s: Seq<char>) -> Seq<char>
    decreases s.len(),
{
    if s.len() > 0 && is_ws(s[0]) {
        skip_ws(s.drop_first())
    } else {
        s
    }
}

/// Four leading hex digits.
pub open spec fn hex4_ok(s: Seq<char>) -> bool {
    s.len() >= 4 && is_hex_digit(s[0]) && is_hex_digit(s[1]) && is_hex_digit(s[2])
        && is_hex_digit(s[3])
}

/// Their value.
pub open spec fn hex4_val(s: Seq<char>) -> int {
    4096 * hex_val(s[0]) + 256 * hex_val(s[1]) + 16 * hex_val(s[2]) + hex_val(s[3])
}

/// Reads a JSON string body up to and over its closing quote, undoing all
/// the escapes JSON knows, surrogate pairs included; raw control
/// characters are not JSON and fail.
pub open spec fn parse_strbody(s: Seq<char>) -> Option<(Seq<char>, Seq<char>)>
    decreases s.len(),
{
    if s.len() == 0 {
        None
    } else if s[0] == '"' {
        Some((Seq::empty(), s.skip(1)))
    } else if s[0] == '\\' {
        if s.len() < 2 {
            None
        } else if s[1] == '"' || s[1] == '\\' || s[1] == '/' {
            match parse_strbody(s.skip(2)) {
                Some((c, r)) => Some((seq![s[1]] + c, r)),
                None => None,
            }
        } else if s[1] == 'b' || s[1] == 'f' || s[1] == 'n' || s[1] == 'r' || s[1] == 't' {
            let e = if s[1] == 'b' {
                '\u{0008}'
            } else if s[1] == 'f' {
                '\u{000C}'
            } else if s[1] == 'n' {
                '\n'
            } else if s[1] == 'r' {
                '\r'
            } else {
                '\t'
            };
            match parse_strbody(s.skip(2)) {
                Some((c, r)) => Some((seq![e] + c, r)),
                None => None,
            }
        } else if s[1] == 'u' {
            if s.len() >= 6 && hex4_ok(s.skip(2)) {
                let w1 = hex4_val(s.skip(2));
                if 0xD800 <= w1 < 0xDC00 {
                    // a high surrogate must pair with a low one
                    if s.len() >= 12 && s[6] == '\\' && s[7] == 'u' && hex4_ok(s.skip(8)) {
                        let w2 = hex4_val(s.skip(8));
                        if 0xDC00 <= w2 < 0xE000 {
                            let code = 0x10000 + (w1 - 0xD800) * 0x400 + (w2 - 0xDC00);
                            match parse_strbody(s.skip(12)) {
                                Some((c, r)) => Some((seq![(code as u32) as char] + c, r)),
                                None => None,
                            }
                        } else {
                            None
                        }
                    } else {
                        None
                    }
                } else if 0xDC00 <= w1 < 0xE000 {
                    None
                } else {
                    match parse_strbody(s.skip(6)) {
                        Some((c, r)) => Some(((seq![(w1 as u32) as char]) + c, r)),
                        None => None,
                    }
                }
            } else {
                None
            }
        } else {
            None
        }
    } else if (s[0] as u32) < 32 {
        None
    } else {
        match parse_strbody(s.skip(1)) {
            Some((c, r)) => Some((seq![s[0]] + c, r)),
            None => None,
        }
    }
}

/// A quoted string token, leading whitespace allowed.
pub open spec fn parse_string(s: Seq<char>) -> Option<(Seq<char>, Seq<char>)> {
    let t = skip_ws(s);
    if t.len() > 0 && t[0] == '"' {
        parse_strbody(t.skip(1))
    } else {
        None
    }
}

/// The count of leading number characters.
pub open spec fn munch_number(s: Seq<char>) -> int
    decreases s.len(),
{
    if s.len() > 0 && is_number_char(s[0]) {
        1 + munch_number(s.drop_first())
    } else {
        0
    }
}

/// A number token: the longest run of number characters, which must form
/// a number text; leading whitespace allowed.
pub open spec fn parse_number(s: Seq<char>) -> Option<(Seq<char>, Seq<char>)> {
    let t = skip_ws(s);
    let n = munch_number(t);
    if is_number_text(t.take(n)) {
        Some((t.take(n), t.skip(n)))
    } else {
        None
    }
}

/// A string token whose content is a calendar date.
pub open spec fn parse_date_string(s: Seq<char>) -> Option<(Date, Seq<char>)> {
    match parse_string(s) {
        None => None,
        Some((content, r)) => match crate::date::date_of_str(content) {
            None => None,
            Some(d) => Some((d, r)),
        },
    }
}

/// One or more date strings followed by the array's closing bracket.
pub open spec fn parse_uses_elems(s: Seq<char>) -> Option<(Seq<Date>, Seq<char>)>
    decreases s.len(),
{
    match parse_date_string(s) {
        None => None,
        Some((d, r)) => {
            let r2 = skip_ws(r);
            if r2.len() == 0 {
                None
            } else if r2[0] == ']' {
                Some((seq![d], r2.skip(1)))
            } else if r2[0] == ',' && r2.len() < s.len() {
                match parse_uses_elems(r2.skip(1)) {
                    Some((ds, r3)) => Some((seq![d] + ds, r3)),
                    None => None,
                }
            } else {
                None
            }
        },
    }
}

/// A `uses` array: brackets around zero or more date strings.
pub open spec fn parse_uses_arr(s: Seq<char>) -> Option<(Seq<Date>, Seq<char>)> {
    let t = skip_ws(s);
    if t.len() > 0 && t[0] == '[' {
        let u = skip_ws(t.skip(1));
        if u.len() > 0 && u[0] == ']' {
            Some((Seq::empty(), u.skip(1)))
        } else {
            parse_uses_elems(t.skip(1))
        }
    } else {
        None
    }
}

pub open spec fn key_name() -> Seq<char> {
    "name"@
}

pub open spec fn key_cost() -> Seq<char> {
    "cost"@
}

pub open spec fn key_uses() -> Seq<char> {
    "uses"@
}

/// The fields of an item object, from after its opening brace: the keys
/// `name`, `cost` and `uses` in any order, each exactly once.
pub open spec fn parse_fields(
    s: Seq<char>,
    name: Option<Seq<char>>,
    cost: Option<Seq<char>>,
    uses: Option<Seq<Date>>,
) -> Option<(ItemModel, Seq<char>)>
    decreases s.len(),
{
    match parse_string(s) {
        None => None,
        Some((key, r)) => {
            let r2 = skip_ws(r);
            if r2.len() == 0 || r2[0] != ':' {
                None
            } else {
                let r3 = r2.skip(1);
                let step: Option<
                    ((Option<Seq<char>>, Option<Seq<char>>, Option<Seq<Date>>), Seq<char>),
                > = if key == key_name() {
                    if name is Some {
                        None
                    } else {
                        match parse_string(r3) {
                            Some((vv, r4)) => Some(((Some(vv), cost, uses), r4)),
                            None => None,
                        }
                    }
                } else if key == key_cost() {
                    if cost is Some {
                        None
                    } else {
                        match parse_number(r3) {
                            Some((vv, r4)) => Some(((name, Some(vv), uses), r4)),
                            None => None,
                        }
                    }
                } else if key == key_uses() {
                    if uses is Some {
                        None
                    } else {
                        match parse_uses_arr(r3) {
                            Some((vv, r4)) => Some(((name, cost, Some(vv)), r4)),
                            None => None,
                        }
                    }
                } else {
                    None
                };
                match step {
                    None => None,
                    Some((acc, r4)) => {
                        let r5 = skip_ws(r4);
                        if r5.len() == 0 {
                            None
                        } else if r5[0] == '}' {
                            match acc {
                                (Some(n), Some(c), Some(u)) => Some(
                                    (ItemModel { name: n, cost: c, uses: u }, r5.skip(1)),
                                ),
                                _ => None,
                            }
                        } else if r5[0] == ',' && r5.len() < s.len() {
                            parse_fields(r5.skip(1), acc.0, acc.1, acc.2)
                        } else {
                            None
                        }
                    },
                }
            }
        },
    }
}

/// One item object, leading whitespace allowed.
pub open spec fn parse_item(s: Seq<char>) -> Option<(ItemModel, Seq<char>)> {
    let t = skip_ws(s);
    if t.len() > 0 && t[0] == '{' {
        parse_fields(t.skip(1), None, None, None)
    } else {
        None
    }
}

/// One or more items followed by the array's closing bracket.
pub open spec fn parse_items_elems(s: Seq<char>) -> Option<(Seq<ItemModel>, Seq<char>)>
    decreases s.len(),
{
    match parse_item(s) {
        None => None,
        Some((it, r)) => {
            let r2 = skip_ws(r);
            if r2.len() == 0 {
                None
            } else if r2[0] == ']' {
                Some((seq![it], r2.skip(1)))
            } else if r2[0] == ',' && r2.len() < s.len() {
                match parse_items_elems(r2.skip(1)) {
                    Some((ms, r3)) => Some((seq![it] + ms, r3)),
                    None => None,
                }
            } else {
                None
            }
        },
    }
}

/// A whole document: a JSON array of item objects, and nothing but
/// whitespace around or after it.
pub open spec fn parse_doc(s: Seq<char>) -> Option<Seq<ItemModel>> {
    let t = skip_ws(s);
    if t.len() > 0 && t[0] == '[' {
        let u = skip_ws(t.skip(1));
        if u.len() > 0 && u[0] == ']' {
            if skip_ws(u.skip(1)).len() == 0 {
                Some(Seq::empty())
            } else {
                None
            }
        } else {
            match parse_items_elems(t.skip(1)) {
                None => None,
                Some((ms, r)) => if skip_ws(r).len() == 0 {
                    Some(ms)
                } else {
                    None
                },
            }
        }
    } else {
        None
    }
}

// ---------------------------------------------------------------------------
// Parsing inverts printing: the writer's canonical documents lie inside
// the reader's language, and parsing them recovers the items exactly.
// ---------------------------------------------------------------------------
/// Skipping whitespace passes over any all-whitespace prefix.
pub proof fn lemma_skip_ws_concat(w: Seq<char>, z: Seq<char>)
    requires
        forall|i: int| 0 <= i < w.len() ==> is_ws(#[trigger] w[i]),
    ensures
        skip_ws(w + z) == skip_ws(z),
    decreases w.len(),
{
    if w.len() == 0 {
        assert(w + z =~= z);
    } else {
        assert((w + z)[0] == w[0]);
        assert((w + z).drop_first() =~= w.drop_first() + z);
        lemma_skip_ws_concat(w.drop_first(), z);
    }
}

/// Escaping text that holds no quote, backslash or control character
/// leaves it unchanged.
pub proof fn lemma_escape_plain(s: Seq<char>)
    requires
        forall|i: int|
            0 <= i < s.len() ==> (#[trigger] s[i]) as u32 >= 32 && s[i] != '"' && s[i] != '\\',
    ensures
        escape(s) == s,
    decreases s.len(),
{
    if s.len() > 0 {
        assert(esc_char(s[0]) == seq![s[0]]);
        lemma_escape_plain(s.drop_first());
        assert(seq![s[0]] + s.drop_first() =~= s);
    }
}

/// Reading a string body out of an escaped name and its closing quote
/// gives the name back, whatever follows the quote.
pub proof fn lemma_strbody_round(name: Seq<char>, rest: Seq<char>)
    ensures
        parse_strbody(escape(name) + (l_quote() + rest)) == Some((name, rest)),
    decreases name.len(),
{
    reveal_strlit("\"");
    let s = escape(name) + (l_quote() + rest);
    if name.len() == 0 {
        assert(escape(name) =~= Seq::<char>::empty());
        assert(s =~= l_quote() + rest);
        assert(s[0] == '"');
        assert(s.skip(1) =~= rest);
        assert(Seq::<char>::empty() =~= name);
    } else {
        let c = name[0];
        let t = name.drop_first();
        let y = escape(t) + (l_quote() + rest);
        lemma_strbody_round(t, rest);
        assert(escape(name) == esc_char(c) + escape(t));
        assert(s =~= esc_char(c) + y);
        if c == '"' {
            assert(s[0] == '\\' && s[1] == '"');
            assert(s.skip(2) =~= y);
            assert(seq![s[1]] + t =~= name);
        } else if c == '\\' {
            assert(s[0] == '\\' && s[1] == '\\');
            assert(s.skip(2) =~= y);
            assert(seq![s[1]] + t =~= name);
        } else if (c as u32) < 32 {
            let hi = c as u32 as int / 16;
            let lo = c as u32 as int % 16;
            lemma_hex_char_val(hi);
            lemma_hex_char_val(lo);
            assert(s[0] == '\\' && s[1] == 'u' && s[2] == '0' && s[3] == '0');
            assert(s[4] == hex_char(hi) && s[5] == hex_char(lo));
            assert(s.skip(2)[0] == s[2] && s.skip(2)[1] == s[3] && s.skip(2)[2] == s[4] && s.skip(
                2,
            )[3] == s[5]);
            assert(s.skip(2).len() >= 4);
            crate::date::lemma_digit_char_val(0);
            assert(hex4_ok(s.skip(2)));
            let w1 = hex4_val(s.skip(2));
            assert(w1 == c as u32);
            assert(!(0xD800 <= w1 < 0xDC00) && !(0xDC00 <= w1 < 0xE000));
            assert(s.skip(6) =~= y);
            vstd::utf8::char_u32_cast(c, w1 as u32);
            assert((w1 as u32) as char == c);
            assert(seq![(w1 as u32) as char] + t =~= name);
        } else {
            assert(s[0] == c);
            assert(s.skip(1) =~= y);
            assert(seq![s[0]] + t =~= name);
        }
    }
}

/// Reading a string token out of a quoted, escaped text gives the text
/// back.
pub proof fn lemma_string_round(x: Seq<char>, rest: Seq<char>)
    ensures
        parse_string(l_quote() + (escape(x) + (l_quote() + rest))) == Some((x, rest)),
{
    reveal_strlit("\"");
    let s = l_quote() + (escape(x) + (l_quote() + rest));
    assert(s[0] == '"');
    assert(!is_ws(s[0]));
    assert(skip_ws(s) == s);
    assert(s.skip(1) =~= escape(x) + (l_quote() + rest));
    lemma_strbody_round(x, rest);
}

pub proof fn lemma_munch_concat(t: Seq<char>, rest: Seq<char>)
    requires
        forall|i: int| 0 <= i < t.len() ==> is_number_char(#[trigger] t[i]),
        rest.len() > 0,
        !is_number_char(rest[0]),
    ensures
        munch_number(t + rest) == t.len(),
    decreases t.len(),
{
    if t.len() == 0 {
        assert(t + rest =~= rest);
    } else {
        assert((t + rest)[0] == t[0]);
        assert((t + rest).drop_first() =~= t.drop_first() + rest);
        lemma_munch_concat(t.drop_first(), rest);
    }
}

/// Reading a number token out of a printed number text gives the text
/// back, provided no number character follows it.
pub proof fn lemma_number_round(t: Seq<char>, rest: Seq<char>)
    requires
        is_number_text(t),
        rest.len() > 0,
        !is_number_char(rest[0]),
    ensures
        parse_number(t + rest) == Some((t, rest)),
{
    crate::cost::lemma_number_text_chars(t);
    lemma_munch_concat(t, rest);
    let s = t + rest;
    assert(s[0] == t[0]);
    assert(is_number_char(s[0]));
    assert(!is_ws(s[0]));
    assert(skip_ws(s) == s);
    assert(s.take(t.len() as int) =~= t);
    assert(s.skip(t.len() as int) =~= rest);
}

/// Reading a date string out of a printed one gives the date back.
pub proof fn lemma_date_string_round(d: Date, rest: Seq<char>)
    requires
        d.wf(),
    ensures
        parse_date_string(l_quote() + (date_chars(d) + (l_quote() + rest))) == Some((d, rest)),
{
    let t = date_chars(d);
    crate::date::lemma_date_chars_parse(d, Seq::<char>::empty());
    assert(t + Seq::<char>::empty() =~= t);
    assert(crate::date::date10_of(t) == Some(d));
    assert(crate::date::date_of_str(t) == Some(d));
    assert forall|i: int| 0 <= i < t.len() implies (#[trigger] t[i]) as u32 >= 32 && t[i] != '"'
        && t[i] != '\\' by {
        if i != 4 && i != 7 {
            assert(crate::date::is_digit(t[i]));
        } else {
            assert(t[i] == '-');
        }
    }
    lemma_escape_plain(t);
    lemma_string_round(t, rest);
}

/// Reading the elements of a printed `uses` array gives the dates back,
/// with any whitespace before the first date.
pub proof fn lemma_uses_elems_round(ds: Seq<Date>, w: Seq<char>, rest: Seq<char>)
    requires
        ds.len() > 0,
        forall|i: int| 0 <= i < ds.len() ==> (#[trigger] ds[i]).wf(),
        forall|i: int| 0 <= i < w.len() ==> is_ws(#[trigger] w[i]),
    ensures
        parse_uses_elems(w + (print_uses(ds) + (seq![']'] + rest))) == Some((ds, rest)),
    decreases ds.len(),
{
    reveal_strlit("\"");
    reveal_strlit(", ");
    let d = ds[0];
    let s = w + (print_uses(ds) + (seq![']'] + rest));
    crate::date::lemma_date_chars_parse(d, Seq::<char>::empty());
    if ds.len() == 1 {
        let after = seq![']'] + rest;
        assert(s =~= w + (l_quote() + (date_chars(d) + (l_quote() + after))));
        lemma_skip_ws_concat(w, l_quote() + (date_chars(d) + (l_quote() + after)));
        lemma_date_string_round(d, after);
        assert(parse_date_string(s) == parse_date_string(
            l_quote() + (date_chars(d) + (l_quote() + after)),
        ));
        assert(!is_ws(after[0]));
        assert(skip_ws(after) == after);
        assert(after.skip(1) =~= rest);
        assert(seq![d] =~= ds);
    } else {
        let dft = ds.drop_first();
        let z = print_uses(dft) + (seq![']'] + rest);
        let after = l_dsep() + z;
        assert(s =~= w + (l_quote() + (date_chars(d) + (l_quote() + after))));
        lemma_skip_ws_concat(w, l_quote() + (date_chars(d) + (l_quote() + after)));
        lemma_date_string_round(d, after);
        assert(parse_date_string(s) == Some((d, after)));
        assert(after[0] == ',');
        assert(skip_ws(after) == after);
        assert(after.len() < s.len());
        assert(after.skip(1) =~= seq![' '] + z);
        assert forall|i: int| 0 <= i < dft.len() implies (#[trigger] dft[i]).wf() by {
            assert(dft[i] == ds[i + 1]);
        }
        lemma_uses_elems_round(dft, seq![' '], rest);
        assert(seq![d] + dft =~= ds);
    }
}

/// Reading a printed `uses` array gives the dates back.
pub proof fn lemma_uses_round(ds: Seq<Date>, rest: Seq<char>)
    requires
        forall|i: int| 0 <= i < ds.len() ==> (#[trigger] ds[i]).wf(),
    ensures
        parse_uses_arr(seq!['['] + (print_uses(ds) + (seq![']'] + rest))) == Some((ds, rest)),
{
    reveal_strlit("\"");
    let s = seq!['['] + (print_uses(ds) + (seq![']'] + rest));
    assert(s[0] == '[');
    assert(skip_ws(s) == s);
    let inner = print_uses(ds) + (seq![']'] + rest);
    assert(s.skip(1) =~= inner);
    if ds.len() == 0 {
        assert(print_uses(ds) =~= Seq::<char>::empty());
        assert(inner =~= seq![']'] + rest);
        assert(inner[0] == ']');
        assert(skip_ws(inner) == inner);
        assert(inner.skip(1) =~= rest);
        assert(Seq::<Date>::empty() =~= ds);
    } else {
        assert(print_uses(ds)[0] == '"');
        assert(inner[0] == '"');
        assert(skip_ws(inner) == inner);
        assert(Seq::<char>::empty() + (print_uses(ds) + (seq![']'] + rest)) =~= inner);
        lemma_uses_elems_round(ds, Seq::<char>::empty(), rest);
    }
}

/// One `"name"` field with its separating comma, as the writer lays it
/// out, carries the field into the accumulator.
#[verifier::rlimit(100)]
proof fn lemma_field_step_name(
    x: Seq<char>,
    after: Seq<char>,
    cost: Option<Seq<char>>,
    uses: Option<Seq<Date>>,
)
    requires
        after.len() > 0,
        after[0] == ',',
    ensures
        ({
            let chain = seq!['\n', ' ', ' ', ' ', ' '] + (l_quote() + (key_name() + (l_quote()
                + (seq![':'] + (seq![' '] + (l_quote() + (escape(x) + (l_quote() + after))))))));
            parse_fields(chain, None, cost, uses) == parse_fields(
                after.skip(1),
                Some(x),
                cost,
                uses,
            )
        }),
{
    reveal_strlit("\"");
    reveal_strlit("name");
    let ws4 = seq!['\n', ' ', ' ', ' ', ' '];
    assert(forall|i: int| 0 <= i < ws4.len() ==> is_ws(#[trigger] ws4[i]));
    let n1 = seq![':'] + (seq![' '] + (l_quote() + (escape(x) + (l_quote() + after))));
    let k1 = l_quote() + (key_name() + (l_quote() + n1));
    let chain = ws4 + k1;
    assert forall|i: int| 0 <= i < key_name().len() implies (#[trigger] key_name()[i]) as u32
        >= 32 && key_name()[i] != '\"' && key_name()[i] != '\\' by {}
    lemma_escape_plain(key_name());
    lemma_skip_ws_concat(ws4, k1);
    lemma_string_round(key_name(), n1);
    assert(parse_string(chain) == Some((key_name(), n1)));
    assert(n1[0] == ':');
    assert(skip_ws(n1) == n1);
    let n2 = seq![' '] + (l_quote() + (escape(x) + (l_quote() + after)));
    assert(n1.skip(1) =~= n2);
    lemma_skip_ws_concat(seq![' '], l_quote() + (escape(x) + (l_quote() + after)));
    lemma_string_round(x, after);
    assert(parse_string(n2) == Some((x, after)));
    assert(skip_ws(after) == after);
    assert(after.len() < chain.len());
}

/// One `"cost"` field with its separating comma, likewise.
#[verifier::rlimit(100)]
proof fn lemma_field_step_cost(
    t: Seq<char>,
    after: Seq<char>,
    name: Option<Seq<char>>,
    uses: Option<Seq<Date>>,
)
    requires
        is_number_text(t),
        after.len() > 0,
        after[0] == ',',
    ensures
        ({
            let chain = seq!['\n', ' ', ' ', ' ', ' '] + (l_quote() + (key_cost() + (l_quote()
                + (seq![':'] + (seq![' '] + (t + after))))));
            parse_fields(chain, name, None, uses) == parse_fields(
                after.skip(1),
                name,
                Some(t),
                uses,
            )
        }),
{
    reveal_strlit("\"");
    reveal_strlit("name");
    reveal_strlit("cost");
    let ws4 = seq!['\n', ' ', ' ', ' ', ' '];
    assert(forall|i: int| 0 <= i < ws4.len() ==> is_ws(#[trigger] ws4[i]));
    let c3 = seq![':'] + (seq![' '] + (t + after));
    let k2 = l_quote() + (key_cost() + (l_quote() + c3));
    let chain = ws4 + k2;
    assert forall|i: int| 0 <= i < key_cost().len() implies (#[trigger] key_cost()[i]) as u32
        >= 32 && key_cost()[i] != '\"' && key_cost()[i] != '\\' by {}
    lemma_escape_plain(key_cost());
    lemma_skip_ws_concat(ws4, k2);
    lemma_string_round(key_cost(), c3);
    assert(parse_string(chain) == Some((key_cost(), c3)));
    assert(key_cost() != key_name()) by {
        assert(key_cost()[0] == 'c' && key_name()[0] == 'n');
    }
    assert(c3[0] == ':');
    assert(skip_ws(c3) == c3);
    let c4 = seq![' '] + (t + after);
    assert(c3.skip(1) =~= c4);
    crate::cost::lemma_number_text_chars(t);
    assert(!is_ws(t[0]));
    lemma_skip_ws_concat(seq![' '], t + after);
    assert(!is_number_char(after[0]));
    lemma_number_round(t, after);
    assert(skip_ws(t + after) == t + after);
    assert(parse_number(c4) == Some((t, after)));
    assert(skip_ws(after) == after);
    assert(after.len() < chain.len());
}

/// The closing `"uses"` field: its array, the closing brace, and the
/// finished item.
#[verifier::rlimit(100)]
proof fn lemma_field_step_uses(ds: Seq<Date>, rest: Seq<char>, name: Seq<char>, cost: Seq<char>)
    requires
        forall|i: int| 0 <= i < ds.len() ==> (#[trigger] ds[i]).wf(),
    ensures
        ({
            let chain = seq!['\n', ' ', ' ', ' ', ' '] + (l_quote() + (key_uses() + (l_quote()
                + (seq![':'] + (seq![' '] + (seq!['['] + (print_uses(ds) + (seq![']'] + (seq![
                '\n',
                ' ',
                ' ',
            ] + (seq!['}'] + rest))))))))));
            parse_fields(chain, Some(name), Some(cost), None) == Some(
                ((ItemModel { name, cost, uses: ds }), rest),
            )
        }),
{
    reveal_strlit("\"");
    reveal_strlit("name");
    reveal_strlit("cost");
    reveal_strlit("uses");
    let ws4 = seq!['\n', ' ', ' ', ' ', ' '];
    assert(forall|i: int| 0 <= i < ws4.len() ==> is_ws(#[trigger] ws4[i]));
    let ws2 = seq!['\n', ' ', ' '];
    assert(forall|i: int| 0 <= i < ws2.len() ==> is_ws(#[trigger] ws2[i]));
    let a8 = seq!['}'] + rest;
    let a7 = ws2 + a8;
    let a4 = seq!['['] + (print_uses(ds) + (seq![']'] + a7));
    let a4s = seq![' '] + a4;
    let a3 = seq![':'] + a4s;
    let k3 = l_quote() + (key_uses() + (l_quote() + a3));
    let chain = ws4 + k3;
    assert forall|i: int| 0 <= i < key_uses().len() implies (#[trigger] key_uses()[i]) as u32
        >= 32 && key_uses()[i] != '\"' && key_uses()[i] != '\\' by {}
    lemma_escape_plain(key_uses());
    lemma_skip_ws_concat(ws4, k3);
    lemma_string_round(key_uses(), a3);
    assert(parse_string(chain) == Some((key_uses(), a3)));
    assert(key_uses() != key_name()) by {
        assert(key_uses()[0] == 'u' && key_name()[0] == 'n');
    }
    assert(key_uses() != key_cost()) by {
        assert(key_uses()[0] == 'u' && key_cost()[0] == 'c');
    }
    assert(a3[0] == ':');
    assert(skip_ws(a3) == a3);
    assert(a3.skip(1) =~= a4s);
    lemma_skip_ws_concat(seq![' '], a4);
    lemma_uses_round(ds, a7);
    assert(parse_uses_arr(a4s) == parse_uses_arr(a4));
    assert(parse_uses_arr(a4s) == Some((ds, a7)));
    lemma_skip_ws_concat(ws2, a8);
    assert(a8[0] == '}');
    assert(skip_ws(a8) == a8);
    assert(skip_ws(a7) == a8);
    assert(a8.skip(1) =~= rest);
}

/// Reading a printed item object gives the item back, whatever follows.
#[verifier::rlimit(100)]
pub proof fn lemma_item_round(m: ItemModel, rest: Seq<char>)
    requires
        wf_item(m),
    ensures
        parse_item(print_item(m) + rest) == Some((m, rest)),
{
    reveal_strlit("\"");
    reveal_strlit("  {\n    \"name\": \"");
    reveal_strlit(",\n    \"cost\": ");
    reveal_strlit(",\n    \"uses\": [");
    reveal_strlit("]\n  }");
    reveal_strlit("name");
    reveal_strlit("cost");
    reveal_strlit("uses");
    let ws4 = seq!['\n', ' ', ' ', ' ', ' '];
    let ws2 = seq!['\n', ' ', ' '];
    let chain3 = ws4 + (l_quote() + (key_uses() + (l_quote() + (seq![':'] + (seq![' '] + (seq![
        '[',
    ] + (print_uses(m.uses) + (seq![']'] + (ws2 + (seq!['}'] + rest))))))))));
    let chain2 = ws4 + (l_quote() + (key_cost() + (l_quote() + (seq![':'] + (seq![' '] + (m.cost
        + (seq![','] + chain3)))))));
    let chain1 = ws4 + (l_quote() + (key_name() + (l_quote() + (seq![':'] + (seq![' '] + (
    l_quote() + (escape(m.name) + (l_quote() + (seq![','] + chain2)))))))));
    let zbrace = seq!['{'] + chain1;
    let s_all = seq![' ', ' '] + zbrace;
    assert(print_item(m) + rest =~= s_all);
    lemma_skip_ws_concat(seq![' ', ' '], zbrace);
    assert(zbrace[0] == '{');
    assert(skip_ws(zbrace) == zbrace);
    assert(zbrace.skip(1) =~= chain1);
    assert(parse_item(s_all) == parse_fields(chain1, None, None, None));
    lemma_field_step_name(m.name, seq![','] + chain2, None, None);
    assert((seq![','] + chain2).skip(1) =~= chain2);
    lemma_field_step_cost(m.cost, seq![','] + chain3, Some(m.name), None);
    assert((seq![','] + chain3).skip(1) =~= chain3);
    lemma_field_step_uses(m.uses, rest, m.name, m.cost);
    assert((ItemModel { name: m.name, cost: m.cost, uses: m.uses }) =~= m);
}

/// Reading the elements of the printed item list gives the items back,
/// with whitespace before the first item and before the closing bracket.
#[verifier::rlimit(60)]
pub proof fn lemma_items_elems_round(
    ms: Seq<ItemModel>,
    w: Seq<char>,
    wc: Seq<char>,
    rest: Seq<char>,
)
    requires
        ms.len() > 0,
        wf_doc(ms),
        forall|i: int| 0 <= i < w.len() ==> is_ws(#[trigger] w[i]),
        forall|i: int| 0 <= i < wc.len() ==> is_ws(#[trigger] wc[i]),
    ensures
        parse_items_elems(w + (print_items(ms) + (wc + (seq![']'] + rest)))) == Some((ms, rest)),
    decreases ms.len(),
{
    reveal_strlit(",\n");
    reveal_strlit("  {\n    \"name\": \"");
    let s = w + (print_items(ms) + (wc + (seq![']'] + rest)));
    assert(wf_item(ms[0]));
    if ms.len() == 1 {
        let after = wc + (seq![']'] + rest);
        assert(print_items(ms) == print_item(ms[0]));
        assert(s =~= w + (print_item(ms[0]) + after));
        lemma_item_round(ms[0], after);
        assert(skip_ws(w + (print_item(ms[0]) + after)) == skip_ws(print_item(ms[0]) + after))
            by {
            lemma_skip_ws_concat(w, print_item(ms[0]) + after);
        }
        assert(parse_item(s) == Some((ms[0], after)));
        lemma_skip_ws_concat(wc, seq![']'] + rest);
        assert((seq![']'] + rest)[0] == ']');
        assert(skip_ws(after) == seq![']'] + rest);
        assert((seq![']'] + rest).skip(1) =~= rest);
        assert(seq![ms[0]] =~= ms);
    } else {
        let dft = ms.drop_first();
        let z = print_items(dft) + (wc + (seq![']'] + rest));
        let after = l_sep() + z;
        assert(print_items(ms) == print_item(ms[0]) + (l_sep() + print_items(dft)));
        assert(s =~= w + (print_item(ms[0]) + after));
        lemma_item_round(ms[0], after);
        assert(skip_ws(w + (print_item(ms[0]) + after)) == skip_ws(print_item(ms[0]) + after))
            by {
            lemma_skip_ws_concat(w, print_item(ms[0]) + after);
        }
        assert(parse_item(s) == Some((ms[0], after)));
        assert(after[0] == ',');
        assert(skip_ws(after) == after);
        assert(after.len() < s.len()) by {
            assert(print_item(ms[0]).len() >= l_item_head().len());
        }
        assert(after.skip(1) =~= seq!['\n'] + z);
        assert forall|i: int| 0 <= i < dft.len() implies wf_item(#[trigger] dft[i]) by {
            assert(dft[i] == ms[i + 1]);
        }
        lemma_items_elems_round(dft, seq!['\n'], wc, rest);
        assert(seq![ms[0]] + dft =~= ms);
    }
}

/// Parsing a printed document recovers the items exactly: saving and then
/// loading yields the same names, costs and uses, in the same order.
pub proof fn lemma_doc_round_trip(ms: Seq<ItemModel>)
    requires
        wf_doc(ms),
    ensures
        parse_doc(print_doc(ms)) == Some(ms),
{
    reveal_strlit("[]");
    reveal_strlit("[\n");
    reveal_strlit("\n]");
    reveal_strlit("  {\n    \"name\": \"");
    let s = print_doc(ms);
    if ms.len() == 0 {
        assert(s == l_empty());
        assert(s[0] == '[');
        assert(skip_ws(s) == s);
        assert(s.skip(1) =~= seq![']']);
        assert(skip_ws(seq![']']) == seq![']']);
        assert(seq![']'].skip(1) =~= Seq::<char>::empty());
        assert(skip_ws(Seq::<char>::empty()).len() == 0);
        assert(Seq::<ItemModel>::empty() =~= ms);
    } else {
        assert(s == l_open() + (print_items(ms) + l_close()));
        assert(s[0] == '[');
        assert(skip_ws(s) == s);
        let inner = print_items(ms) + l_close();
        assert(s.skip(1) =~= seq!['\n'] + inner);
        // the inner text, re-cut for the element reader
        let z = seq!['\n'] + (print_items(ms) + (seq!['\n'] + (seq![']'] + Seq::<char>::empty())));
        assert(s.skip(1) =~= z);
        // it does not open with the closing bracket
        assert(print_items(ms) == print_item(ms[0]) || print_items(ms) == print_item(ms[0]) + (
        l_sep() + print_items(ms.drop_first())));
        assert(print_item(ms[0])[0] == ' ' && print_item(ms[0])[1] == ' ' && print_item(
            ms[0],
        )[2] == '{');
        assert(print_items(ms)[0] == ' ' && print_items(ms)[1] == ' ' && print_items(ms)[2]
            == '{');
        let u = skip_ws(s.skip(1));
        assert(z[0] == '\n' && z[1] == ' ' && z[2] == ' ' && z[3] == '{');
        let z1 = z.drop_first();
        let z2 = z1.drop_first();
        let z3 = z2.drop_first();
        assert(z1[0] == z[1] && z2[0] == z[2] && z3[0] == z[3]);
        assert(skip_ws(z) == skip_ws(z1));
        assert(skip_ws(z1) == skip_ws(z2));
        assert(skip_ws(z2) == skip_ws(z3));
        assert(skip_ws(z3) == z3);
        assert(u == z3);
        assert(u.len() > 0 && u[0] == '{');
        lemma_items_elems_round(ms, seq!['\n'], seq!['\n'], Seq::<char>::empty());
        assert(parse_items_elems(s.skip(1)) == Some((ms, Seq::<char>::empty())));
        assert(skip_ws(Seq::<char>::empty()).len() == 0);
    }
}

// ---------------------------------------------------------------------------
// Whatever parses is well formed: costs are number texts and dates valid.
// ---------------------------------------------------------------------------
pub proof fn lemma_parse_uses_elems_wf(s: Seq<char>)
    ensures
        parse_uses_elems(s) matches Some((ds, r)) ==> forall|i: int|
            0 <= i < ds.len() ==> (#[trigger] ds[i]).wf(),
    decreases s.len(),
{
    match parse_date_string(s) {
        None => {},
        Some((d, r)) => {
            let r2 = skip_ws(r);
            if r2.len() > 0 && r2[0] == ',' && r2.len() < s.len() {
                lemma_parse_uses_elems_wf(r2.skip(1));
                match parse_uses_elems(r2.skip(1)) {
                    Some((ds2, r3)) => {
                        assert forall|i: int| 0 <= i < (seq![d] + ds2).len() implies (#[trigger] (
                        seq![d] + ds2)[i]).wf() by {
                            if i > 0 {
                                assert((seq![d] + ds2)[i] == ds2[i - 1]);
                            }
                        }
                    },
                    None => {},
                }
            }
        },
    }
}

pub proof fn lemma_parse_fields_wf(
    s: Seq<char>,
    name: Option<Seq<char>>,
    cost: Option<Seq<char>>,
    uses: Option<Seq<Date>>,
)
    requires
        cost matches Some(c) ==> is_number_text(c),
        uses matches Some(u) ==> forall|i: int| 0 <= i < u.len() ==> (#[trigger] u[i]).wf(),
    ensures
        parse_fields(s, name, cost, uses) matches Some((m, r)) ==> wf_item(m),
    decreases s.len(),
{
    match parse_string(s) {
        None => {},
        Some((key, r)) => {
            let r2 = skip_ws(r);
            if r2.len() > 0 && r2[0] == ':' {
                let r3 = r2.skip(1);
                if key == key_name() && name is None {
                    match parse_string(r3) {
                        Some((vv, r4)) => {
                            let r5 = skip_ws(r4);
                            if r5.len() > 0 && r5[0] == ',' && r5.len() < s.len() {
                                lemma_parse_fields_wf(r5.skip(1), Some(vv), cost, uses);
                            }
                        },
                        None => {},
                    }
                } else if key == key_cost() && cost is None {
                    match parse_number(r3) {
                        Some((vv, r4)) => {
                            let r5 = skip_ws(r4);
                            if r5.len() > 0 && r5[0] == ',' && r5.len() < s.len() {
                                lemma_parse_fields_wf(r5.skip(1), name, Some(vv), uses);
                            }
                        },
                        None => {},
                    }
                } else if key == key_uses() && uses is None {
                    match parse_uses_arr(r3) {
                        Some((vv, r4)) => {
                            if skip_ws(r3).len() > 0 && skip_ws(r3)[0] == '[' {
                                let u2 = skip_ws(skip_ws(r3).skip(1));
                                if !(u2.len() > 0 && u2[0] == ']') {
                                    lemma_parse_uses_elems_wf(skip_ws(r3).skip(1));
                                }
                            }
                            let r5 = skip_ws(r4);
                            if r5.len() > 0 && r5[0] == ',' && r5.len() < s.len() {
                                lemma_parse_fields_wf(r5.skip(1), name, cost, Some(vv));
                            }
                        },
                        None => {},
                    }
                }
            }
        },
    }
}

pub proof fn lemma_parse_items_elems_wf(s: Seq<char>)
    ensures
        parse_items_elems(s) matches Some((ms, r)) ==> wf_doc(ms),
    decreases s.len(),
{
    match parse_item(s) {
        None => {},
        Some((it, r)) => {
            let t = skip_ws(s);
            if t.len() > 0 && t[0] == '{' {
                lemma_parse_fields_wf(t.skip(1), None, None, None);
            }
            assert(wf_item(it));
            let r2 = skip_ws(r);
            if r2.len() > 0 && r2[0] == ',' && r2.len() < s.len() {
                lemma_parse_items_elems_wf(r2.skip(1));
                match parse_items_elems(r2.skip(1)) {
                    Some((ms2, r3)) => {
                        assert forall|i: int| 0 <= i < (seq![it] + ms2).len() implies wf_item(
                            #[trigger] (seq![it] + ms2)[i],
                        ) by {
                            if i > 0 {
                                assert((seq![it] + ms2)[i] == ms2[i - 1]);
                            }
                        }
                    },
                    None => {},
                }
            } else if r2.len() > 0 && r2[0] == ']' {
                assert(seq![it][0] == it);
            }
        },
    }
}

/// Whatever document parses, it parses to well-formed items.
pub proof fn lemma_parse_doc_wf(s: Seq<char>)
    ensures
        parse_doc(s) matches Some(ms) ==> wf_doc(ms),
{
    let t = skip_ws(s);
    if t.len() > 0 && t[0] == '[' {
        lemma_parse_items_elems_wf(t.skip(1));
    }
}

// ---------------------------------------------------------------------------
// The writer.
// ---------------------------------------------------------------------------
/// Appending one character extends the escape of a name by that
/// character's escape.
proof fn lemma_escape_snoc(t: Seq<char>, c: char)
    ensures
        escape(t.push(c)) =~= escape(t) + esc_char(c),
    decreases t.len(),
{
    if t.len() == 0 {
        assert(t.push(c) =~= seq![c]);
        assert(seq![c][0] == c);
        assert(seq![c].drop_first() =~= Seq::<char>::empty());
        assert(escape(seq![c]) == esc_char(c) + escape(seq![c].drop_first()));
        assert(escape(t) =~= Seq::<char>::empty());
        assert(esc_char(c) + Seq::<char>::empty() =~= esc_char(c));
    } else {
        assert(t.push(c)[0] == t[0]);
        assert(t.push(c).drop_first() =~= t.drop_first().push(c));
        lemma_escape_snoc(t.drop_first(), c);
        assert(escape(t.push(c)) == esc_char(t[0]) + escape(t.drop_first().push(c)));
        assert(esc_char(t[0]) + (escape(t.drop_first()) + esc_char(c)) =~= (esc_char(t[0])
            + escape(t.drop_first())) + esc_char(c));
    }
}

fn hex_char_exec(n: u32) -> (c: char)
    requires
        n < 16,
    ensures
        c == hex_char(n as int),
{
    if n <= 9 {
        crate::date::digit_char_exec(n)
    } else if n == 10 {
        'a'
    } else if n == 11 {
        'b'
    } else if n == 12 {
        'c'
    } else if n == 13 {
        'd'
    } else if n == 14 {
        'e'
    } else {
        'f'
    }
}

/// Writes a name with the escapes `escape` prescribes.
fn write_escaped(s: &str, out: &mut Vec<char>)
    ensures
        final(out)@ =~= old(out)@ + escape(s@),
{
    let n = s.unicode_len();
    let mut i: usize = 0;
    while i < n
        invariant
            i <= n,
            n == s@.len(),
            out@ =~= old(out)@ + escape(s@.take(i as int)),
        decreases n - i,
    {
        let c = s.get_char(i);
        let ghost prefix = s@.take(i as int);
        if c == '"' {
            out.push('\\');
            out.push('"');
        } else if c == '\\' {
            out.push('\\');
            out.push('\\');
        } else if (c as u32) < 32 {
            out.push('\\');
            out.push('u');
            out.push('0');
            out.push('0');
            out.push(hex_char_exec((c as u32) / 16));
            out.push(hex_char_exec((c as u32) % 16));
        } else {
            out.push(c);
        }
        proof {
            assert(out@ =~= old(out)@ + (escape(prefix) + esc_char(c)));
            lemma_escape_snoc(prefix, c);
            assert(prefix.push(c) =~= s@.take(i + 1));
        }
        i += 1;
    }
    assert(s@.take(n as int) =~= s@);
}

/// Writes the quoted dates of `ds` from index `from` on.
fn write_uses_from(ds: &Vec<Date>, from: usize, out: &mut Vec<char>)
    requires
        from < ds@.len(),
        forall|i: int| 0 <= i < ds@.len() ==> (#[trigger] ds@[i]).wf(),
    ensures
        final(out)@ =~= old(out)@ + print_uses(ds@.skip(from as int)),
    decreases ds@.len() - from,
{
    let ghost tail = ds@.skip(from as int);
    assert(tail[0] == ds@[from as int]);
    out.push('"');
    crate::date::push_date_chars(out, &ds[from]);
    out.push('"');
    proof {
        reveal_strlit("\"");
        assert(l_quote() =~= seq!['"']);
    }
    if from < ds.len() - 1 {
        out.push(',');
        out.push(' ');
        let ghost mid = out@;
        write_uses_from(ds, from + 1, out);
        proof {
            reveal_strlit(", ");
            assert(l_dsep() =~= seq![',', ' ']);
            assert(tail.drop_first() =~= ds@.skip(from + 1));
            assert(tail.len() > 1);
            assert(out@ =~= old(out)@ + print_uses(tail));
        }
    } else {
        assert(tail.len() == 1);
        assert(out@ =~= old(out)@ + print_uses(tail));
    }
}

/// Writes one item as `print_item` prescribes.
fn write_item(it: &crate::item::ClothingItem, out: &mut Vec<char>)
    requires
        wf_item(it@),
    ensures
        final(out)@ =~= old(out)@ + print_item(it@),
{
    crate::text::push_str_chars(out, "  {\n    \"name\": \"");
    write_escaped(it.name.as_str(), out);
    out.push('"');
    crate::text::push_str_chars(out, ",\n    \"cost\": ");
    crate::text::push_str_chars(out, it.cost.text().as_str());
    crate::text::push_str_chars(out, ",\n    \"uses\": [");
    if it.uses.len() > 0 {
        write_uses_from(&it.uses, 0, out);
        assert(it.uses@.skip(0) =~= it.uses@);
    } else {
        assert(print_uses(it.uses@) =~= Seq::<char>::empty());
    }
    crate::text::push_str_chars(out, "]\n  }");
    proof {
        reveal_strlit("\"");
        assert(l_quote() =~= seq!['"']);
        assert(out@ =~= old(out)@ + print_item(it@));
    }
}

/// Writes the items from index `from` on, comma-separated.
fn write_items_from(items: &Vec<crate::item::ClothingItem>, from: usize, out: &mut Vec<char>)
    requires
        from < items@.len(),
        wf_doc(crate::item::doc_of(items@)),
    ensures
        final(out)@ =~= old(out)@ + print_items(crate::item::doc_of(items@).skip(from as int)),
    decreases items@.len() - from,
{
    let ghost tail = crate::item::doc_of(items@).skip(from as int);
    assert(tail[0] == items@[from as int]@);
    assert(wf_item(crate::item::doc_of(items@)[from as int]));
    write_item(&items[from], out);
    if from < items.len() - 1 {
        out.push(',');
        out.push('\n');
        write_items_from(items, from + 1, out);
        proof {
            reveal_strlit(",\n");
            assert(l_sep() =~= seq![',', '\n']);
            assert(tail.drop_first() =~= crate::item::doc_of(items@).skip(from + 1));
            assert(tail.len() > 1);
            assert(out@ =~= old(out)@ + print_items(tail));
        }
    } else {
        assert(tail.len() == 1);
        assert(out@ =~= old(out)@ + print_items(tail));
    }
}

/// The whole document for the given items, as `print_doc` prescribes.
pub(crate) fn write_doc(items: &Vec<crate::item::ClothingItem>) -> (out: Vec<char>)
    requires
        wf_doc(crate::item::doc_of(items@)),
    ensures
        out@ =~= print_doc(crate::item::doc_of(items@)),
{
    let mut out: Vec<char> = Vec::new();
    if items.len() == 0 {
        crate::text::push_str_chars(&mut out, "[]");
        assert(out@ =~= l_empty());
    } else {
        crate::text::push_str_chars(&mut out, "[\n");
        write_items_from(items, 0, &mut out);
        crate::text::push_str_chars(&mut out, "\n]");
        proof {
            let ms = crate::item::doc_of(items@);
            assert(ms.skip(0) =~= ms);
            assert(out@ =~= l_open() + (print_items(ms) + l_close()));
        }
    }
    out
}


pub(crate) open spec fn oview_chars(o: Option<Vec<char>>) -> Option<Seq<char>> {
    match o {
        None => None,
        Some(v) => Some(v@),
    }
}

pub(crate) open spec fn oview_dates(o: Option<Vec<Date>>) -> Option<Seq<Date>> {
    match o {
        None => None,
        Some(v) => Some(v@),
    }
}

// ---------------------------------------------------------------------------
// The reader.
// ---------------------------------------------------------------------------
fn is_ws_exec(c: char) -> (r: bool)
    ensures
        r == is_ws(c),
{
    c == ' ' || c == '\n' || c == '\t' || c == '\r'
}

/// Advances over whitespace, as `skip_ws` does on the corresponding
/// suffix.
fn skip_ws_at(v: &Vec<char>, pos: usize) -> (p: usize)
    requires
        pos <= v@.len(),
    ensures
        pos <= p <= v@.len(),
        v@.skip(p as int) == skip_ws(v@.skip(pos as int)),
{
    let mut cur: usize = pos;
    loop
        invariant
            pos <= cur <= v.len(),
            skip_ws(v@.skip(pos as int)) == skip_ws(v@.skip(cur as int)),
        decreases v@.len() - cur,
    {
        let ghost s_cur = v@.skip(cur as int);
        if cur >= v.len() {
            assert(s_cur.len() == 0);
            assert(skip_ws(s_cur) == s_cur);
            return cur;
        }
        assert(s_cur[0] == v@[cur as int]);
        if !is_ws_exec(v[cur]) {
            assert(skip_ws(s_cur) == s_cur);
            return cur;
        }
        proof {
            assert(s_cur.drop_first() =~= v@.skip(cur + 1));
        }
        cur += 1;
    }
}

fn hex_val_exec(c: char) -> (r: Option<u32>)
    ensures
        r is Some <==> is_hex_digit(c),
        r is Some ==> r->0 == hex_val(c) && r->0 < 16,
{
    let u = c as u32;
    if 48 <= u && u <= 57 {
        Some(u - 48)
    } else if c == 'a' || c == 'A' {
        Some(10)
    } else if c == 'b' || c == 'B' {
        Some(11)
    } else if c == 'c' || c == 'C' {
        Some(12)
    } else if c == 'd' || c == 'D' {
        Some(13)
    } else if c == 'e' || c == 'E' {
        Some(14)
    } else if c == 'f' || c == 'F' {
        Some(15)
    } else {
        None
    }
}

/// Reads four hex digits at `pos`, as `hex4_ok`/`hex4_val` say.
fn hex4_at(v: &Vec<char>, pos: usize) -> (r: Option<u32>)
    requires
        pos <= v@.len(),
    ensures
        r is Some <==> hex4_ok(v@.skip(pos as int)),
        r is Some ==> r->0 == hex4_val(v@.skip(pos as int)) && r->0 < 0x10000,
{
    let ghost s = v@.skip(pos as int);
    if v.len() - pos < 4 {
        return None;
    }
    assert(s[0] == v@[pos as int] && s[1] == v@[pos + 1] && s[2] == v@[pos + 2] && s[3] == v@[pos
        + 3]);
    match (
        hex_val_exec(v[pos]),
        hex_val_exec(v[pos + 1]),
        hex_val_exec(v[pos + 2]),
        hex_val_exec(v[pos + 3]),
    ) {
        (Some(a), Some(b), Some(c), Some(d)) => Some(4096 * a + 256 * b + 16 * c + d),
        _ => None,
    }
}

/// Turns a Unicode code point into its character.
///
/// Relies on `char::from_u32`: std documents that it returns `Some`
/// exactly when the value is a Unicode scalar, that is, below the
/// surrogate range or between it and the code-point maximum.
#[verifier::external_body]
fn char_from_u32(v: u32) -> (r: Option<char>)
    ensures
        r is Some <==> (v < 0xD800 || (0xE000 <= v && v <= 0x10FFFF)),
        r is Some ==> r->0 == v as char,
{
    char::from_u32(v)
}

/// Reads a string body at `pos`, as `parse_strbody` does.
fn parse_strbody_at(v: &Vec<char>, pos: usize) -> (r: Option<(Vec<char>, usize)>)
    requires
        pos <= v@.len(),
    ensures
        match parse_strbody(v@.skip(pos as int)) {
            None => r is None,
            Some((c, rest)) => r matches Some((cv, p)) && cv@ == c && pos <= p <= v@.len()
                && v@.skip(p as int) == rest,
        },
{
    let mut acc: Vec<char> = Vec::new();
    let mut cur: usize = pos;
    loop
        invariant
            pos <= cur <= v.len(),
            (match parse_strbody(v@.skip(cur as int)) {
                None => parse_strbody(v@.skip(pos as int)) is None,
                Some((c2, r2)) => parse_strbody(v@.skip(pos as int)) matches Some((c, r)) && c
                    == acc@ + c2 && r == r2,
            }),
        decreases v@.len() - cur,
    {
        let ghost s_cur = v@.skip(cur as int);
        if cur >= v.len() {
            assert(s_cur.len() == 0);
            return None;
        }
        let c = v[cur];
        assert(s_cur[0] == v@[cur as int]);
        if c == '"' {
            proof {
                assert(acc@ + Seq::<char>::empty() =~= acc@);
                assert(s_cur.skip(1) =~= v@.skip(cur + 1));
            }
            return Some((acc, cur + 1));
        }
        if c == '\\' {
            if cur + 1 >= v.len() {
                assert(s_cur.len() < 2);
                return None;
            }
            let e = v[cur + 1];
            assert(s_cur[1] == v@[cur + 1]);
            if e == '"' || e == '\\' || e == '/' {
                let ghost prev = acc@;
                acc.push(e);
                proof {
                    assert(s_cur.skip(2) =~= v@.skip(cur + 2));
                    match parse_strbody(v@.skip(cur + 2)) {
                        Some((c2, r2)) => {
                            assert(prev + (seq![e] + c2) =~= acc@ + c2);
                        },
                        None => {},
                    }
                }
                cur = cur + 2;
            } else if e == 'b' || e == 'f' || e == 'n' || e == 'r' || e == 't' {
                let decoded: char = if e == 'b' {
                    '\u{0008}'
                } else if e == 'f' {
                    '\u{000C}'
                } else if e == 'n' {
                    '\n'
                } else if e == 'r' {
                    '\r'
                } else {
                    '\t'
                };
                let ghost prev = acc@;
                acc.push(decoded);
                proof {
                    assert(s_cur.skip(2) =~= v@.skip(cur + 2));
                    match parse_strbody(v@.skip(cur + 2)) {
                        Some((c2, r2)) => {
                            assert(prev + (seq![decoded] + c2) =~= acc@ + c2);
                        },
                        None => {},
                    }
                }
                cur = cur + 2;
            } else if e == 'u' {
                assert(s_cur.skip(2) =~= v@.skip(cur + 2));
                let w1 = match hex4_at(v, cur + 2) {
                    None => {
                        proof {
                            if s_cur.len() >= 6 {
                                assert(!hex4_ok(s_cur.skip(2)));
                            } else {
                                assert(s_cur.skip(2).len() < 4);
                                assert(!hex4_ok(s_cur.skip(2)));
                            }
                        }
                        return None;
                    },
                    Some(w1) => w1,
                };
                assert(s_cur.len() >= 6 && hex4_ok(s_cur.skip(2)) && w1 == hex4_val(
                    s_cur.skip(2),
                ));
                if 0xD800 <= w1 && w1 < 0xDC00 {
                    // a high surrogate must pair with a low one
                    if v.len() - cur < 8 {
                        assert(s_cur.len() < 12);
                        return None;
                    }
                    assert(s_cur[6] == v@[cur + 6] && s_cur[7] == v@[cur + 7]);
                    if v[cur + 6] != '\\' || v[cur + 7] != 'u' {
                        return None;
                    }
                    assert(s_cur.skip(8) =~= v@.skip(cur + 8));
                    let w2 = match hex4_at(v, cur + 8) {
                        None => {
                            proof {
                                if s_cur.len() >= 12 {
                                    assert(!hex4_ok(s_cur.skip(8)));
                                } else {
                                    assert(s_cur.skip(8).len() < 4);
                                    assert(!hex4_ok(s_cur.skip(8)));
                                }
                            }
                            return None;
                        },
                        Some(w2) => w2,
                    };
                    assert(s_cur.len() >= 12 && hex4_ok(s_cur.skip(8)) && w2 == hex4_val(
                        s_cur.skip(8),
                    ));
                    if !(0xDC00 <= w2 && w2 < 0xE000) {
                        return None;
                    }
                    let code: u32 = 0x10000 + (w1 - 0xD800) * 0x400 + (w2 - 0xDC00);
                    let decoded = match char_from_u32(code) {
                        Some(d) => d,
                        None => {
                            assert(false);
                            return None;
                        },
                    };
                    let ghost prev = acc@;
                    acc.push(decoded);
                    proof {
                        assert(s_cur.skip(12) =~= v@.skip(cur + 12));
                        match parse_strbody(v@.skip(cur + 12)) {
                            Some((c2, r2)) => {
                                assert(prev + (seq![decoded] + c2) =~= acc@ + c2);
                            },
                            None => {},
                        }
                    }
                    cur = cur + 12;
                } else if 0xDC00 <= w1 && w1 < 0xE000 {
                    return None;
                } else {
                    let decoded = match char_from_u32(w1) {
                        Some(d) => d,
                        None => {
                            assert(false);
                            return None;
                        },
                    };
                    let ghost prev = acc@;
                    acc.push(decoded);
                    proof {
                        assert(s_cur.skip(6) =~= v@.skip(cur + 6));
                        match parse_strbody(v@.skip(cur + 6)) {
                            Some((c2, r2)) => {
                                assert(prev + (seq![decoded] + c2) =~= acc@ + c2);
                            },
                            None => {},
                        }
                    }
                    cur = cur + 6;
                }
            } else {
                return None;
            }
        } else if (c as u32) < 32 {
            return None;
        } else {
            let ghost prev = acc@;
            acc.push(c);
            proof {
                assert(s_cur.skip(1) =~= v@.skip(cur + 1));
                match parse_strbody(v@.skip(cur + 1)) {
                    Some((c2, r2)) => {
                        assert(prev + (seq![c] + c2) =~= acc@ + c2);
                    },
                    None => {},
                }
            }
            cur = cur + 1;
        }
    }
}

/// Reads a string token at `pos`, as `parse_string` does.
fn parse_string_at(v: &Vec<char>, pos: usize) -> (r: Option<(Vec<char>, usize)>)
    requires
        pos <= v@.len(),
    ensures
        match parse_string(v@.skip(pos as int)) {
            None => r is None,
            Some((c, rest)) => r matches Some((cv, p)) && cv@ == c && pos < p <= v@.len()
                && v@.skip(p as int) == rest,
        },
{
    let t = skip_ws_at(v, pos);
    let ghost ts = v@.skip(t as int);
    if t >= v.len() {
        assert(ts.len() == 0);
        return None;
    }
    assert(ts[0] == v@[t as int]);
    if v[t] != '"' {
        return None;
    }
    assert(ts.skip(1) =~= v@.skip(t + 1));
    match parse_strbody_at(v, t + 1) {
        None => None,
        Some((cv, p)) => Some((cv, p)),
    }
}

/// Reads a number token at `pos`, as `parse_number` does.
fn parse_number_at(v: &Vec<char>, pos: usize) -> (r: Option<(Vec<char>, usize)>)
    requires
        pos <= v@.len(),
    ensures
        match parse_number(v@.skip(pos as int)) {
            None => r is None,
            Some((t, rest)) => r matches Some((tv, p)) && tv@ == t && pos <= p <= v@.len()
                && v@.skip(p as int) == rest,
        },
{
    let start = skip_ws_at(v, pos);
    let ghost s = v@.skip(start as int);
    let mut t: Vec<char> = Vec::new();
    let mut cur: usize = start;
    loop
        invariant_except_break
            start <= cur <= v.len(),
            s == v@.skip(start as int),
            t@ =~= v@.subrange(start as int, cur as int),
            munch_number(s) == (cur - start) + munch_number(v@.skip(cur as int)),
        invariant
            start <= v.len(),
            s == v@.skip(start as int),
        ensures
            start <= cur <= v@.len(),
            t@ =~= v@.subrange(start as int, cur as int),
            munch_number(s) == cur - start,
        decreases v@.len() - cur,
    {
        let ghost s_cur = v@.skip(cur as int);
        if cur >= v.len() {
            assert(munch_number(s_cur) == 0);
            break;
        }
        let c = v[cur];
        assert(s_cur[0] == v@[cur as int]);
        let u = c as u32;
        let is_num = (48 <= u && u <= 57) || c == '-' || c == '+' || c == '.' || c == 'e' || c
            == 'E';
        assert(is_num == is_number_char(c));
        if !is_num {
            assert(munch_number(s_cur) == 0);
            break;
        }
        t.push(c);
        proof {
            assert(s_cur.drop_first() =~= v@.skip(cur + 1));
            assert(t@ =~= v@.subrange(start as int, cur + 1));
        }
        cur += 1;
    }
    proof {
        assert(s.take(cur - start) =~= v@.subrange(start as int, cur as int));
        assert(s.skip(cur - start) =~= v@.skip(cur as int));
    }
    if crate::cost::number_text_exec(&t) {
        Some((t, cur))
    } else {
        None
    }
}

/// Reads a date string at `pos`, as `parse_date_string` does.
fn parse_datestr_at(v: &Vec<char>, pos: usize) -> (r: Option<(Date, usize)>)
    requires
        pos <= v@.len(),
    ensures
        match parse_date_string(v@.skip(pos as int)) {
            None => r is None,
            Some((d, rest)) => r matches Some((dv, p)) && dv == d && pos < p <= v@.len()
                && v@.skip(p as int) == rest,
        },
{
    let (content, p) = match parse_string_at(v, pos) {
        None => {
            return None;
        },
        Some(x) => x,
    };
    if content.len() != 10 {
        return None;
    }
    assert(content@.skip(0) =~= content@);
    match crate::date::parse_date_at(&content, 0) {
        None => None,
        Some(d) => Some((d, p)),
    }
}

/// Reads the elements of a `uses` array at `pos`, as `parse_uses_elems`
/// does.
fn parse_uses_elems_at(v: &Vec<char>, pos: usize) -> (r: Option<(Vec<Date>, usize)>)
    requires
        pos <= v@.len(),
    ensures
        match parse_uses_elems(v@.skip(pos as int)) {
            None => r is None,
            Some((ds, rest)) => r matches Some((dv, p)) && dv@ == ds && pos <= p <= v@.len()
                && v@.skip(p as int) == rest,
        },
{
    let mut acc: Vec<Date> = Vec::new();
    let mut cur: usize = pos;
    loop
        invariant
            pos <= cur <= v.len(),
            (match parse_uses_elems(v@.skip(cur as int)) {
                None => parse_uses_elems(v@.skip(pos as int)) is None,
                Some((ds2, r2)) => parse_uses_elems(v@.skip(pos as int)) matches Some((ds, r))
                    && ds == acc@ + ds2 && r == r2,
            }),
        decreases v@.len() - cur,
    {
        let ghost s_cur = v@.skip(cur as int);
        let (d, p) = match parse_datestr_at(v, cur) {
            None => {
                return None;
            },
            Some(x) => x,
        };
        let p2 = skip_ws_at(v, p);
        let ghost r2 = v@.skip(p2 as int);
        if p2 >= v.len() {
            assert(r2.len() == 0);
            return None;
        }
        assert(r2[0] == v@[p2 as int]);
        let c = v[p2];
        if c == ']' {
            let ghost prev = acc@;
            acc.push(d);
            proof {
                assert(r2.skip(1) =~= v@.skip(p2 + 1));
                assert(prev + seq![d] =~= acc@);
            }
            return Some((acc, p2 + 1));
        }
        if c != ',' {
            return None;
        }
        assert(r2.len() < s_cur.len());
        let ghost prev = acc@;
        acc.push(d);
        proof {
            assert(r2.skip(1) =~= v@.skip(p2 + 1));
            match parse_uses_elems(v@.skip(p2 + 1)) {
                Some((ds2, r3)) => {
                    assert(prev + (seq![d] + ds2) =~= acc@ + ds2);
                },
                None => {},
            }
        }
        cur = p2 + 1;
    }
}

/// Reads a `uses` array at `pos`, as `parse_uses_arr` does.
fn parse_uses_arr_at(v: &Vec<char>, pos: usize) -> (r: Option<(Vec<Date>, usize)>)
    requires
        pos <= v@.len(),
    ensures
        match parse_uses_arr(v@.skip(pos as int)) {
            None => r is None,
            Some((ds, rest)) => r matches Some((dv, p)) && dv@ == ds && pos <= p <= v@.len()
                && v@.skip(p as int) == rest,
        },
{
    let t = skip_ws_at(v, pos);
    let ghost ts = v@.skip(t as int);
    if t >= v.len() {
        assert(ts.len() == 0);
        return None;
    }
    assert(ts[0] == v@[t as int]);
    if v[t] != '[' {
        return None;
    }
    assert(ts.skip(1) =~= v@.skip(t + 1));
    let u = skip_ws_at(v, t + 1);
    let ghost us = v@.skip(u as int);
    if u < v.len() {
        assert(us[0] == v@[u as int]);
        if v[u] == ']' {
            assert(us.skip(1) =~= v@.skip(u + 1));
            let out: Vec<Date> = Vec::new();
            assert(out@ =~= Seq::<Date>::empty());
            return Some((out, u + 1));
        }
    } else {
        assert(us.len() == 0);
    }
    parse_uses_elems_at(v, t + 1)
}

/// Whether the characters of `v` spell `s`.
fn chars_eq_str(v: &Vec<char>, s: &str) -> (r: bool)
    ensures
        r == (v@ == s@),
{
    let n = s.unicode_len();
    if v.len() != n {
        return false;
    }
    let mut i: usize = 0;
    while i < n
        invariant
            i <= n,
            n == s@.len(),
            n == v@.len(),
            forall|j: int| 0 <= j < i ==> v@[j] == s@[j],
        decreases n - i,
    {
        if v[i] != s.get_char(i) {
            return false;
        }
        i += 1;
    }
    proof {
        assert(v@ =~= s@);
    }
    true
}

/// Reads the fields of an item object at `pos`, as `parse_fields` does
/// from empty accumulators.
#[verifier::rlimit(100)]
fn parse_fields_at(v: &Vec<char>, pos: usize) -> (r: Option<(crate::item::ClothingItem, usize)>)
    requires
        pos <= v@.len(),
    ensures
        match parse_fields(v@.skip(pos as int), None, None, None) {
            None => r is None,
            Some((m, rest)) => r matches Some((it, p)) && it@ == m && pos <= p <= v@.len()
                && v@.skip(p as int) == rest,
        },
{
    let mut name: Option<Vec<char>> = None;
    let mut cost: Option<Vec<char>> = None;
    let mut uses: Option<Vec<Date>> = None;
    let mut cur: usize = pos;
    loop
        invariant
            pos <= cur <= v.len(),
            parse_fields(v@.skip(pos as int), None, None, None) == parse_fields(
                v@.skip(cur as int),
                oview_chars(name),
                oview_chars(cost),
                oview_dates(uses),
            ),
            cost matches Some(cv) ==> is_number_text(cv@),
        decreases v@.len() - cur,
    {
        let ghost s_cur = v@.skip(cur as int);
        let (key, p) = match parse_string_at(v, cur) {
            None => {
                return None;
            },
            Some(x) => x,
        };
        let p2 = skip_ws_at(v, p);
        let ghost r2 = v@.skip(p2 as int);
        if p2 >= v.len() {
            assert(r2.len() == 0);
            return None;
        }
        assert(r2[0] == v@[p2 as int]);
        if v[p2] != ':' {
            return None;
        }
        assert(r2.skip(1) =~= v@.skip(p2 + 1));
        let p3 = p2 + 1;
        let p4: usize;
        if chars_eq_str(&key, "name") {
            assert(key@ == key_name());
            if name.is_some() {
                return None;
            }
            let (vv, q) = match parse_string_at(v, p3) {
                None => {
                    return None;
                },
                Some(x) => x,
            };
            name = Some(vv);
            p4 = q;
        } else if chars_eq_str(&key, "cost") {
            assert(key@ == key_cost());
            proof {
                reveal_strlit("name");
                reveal_strlit("cost");
                assert(key_cost()[0] == 'c' && key_name()[0] == 'n');
                assert(key@ != key_name());
            }
            if cost.is_some() {
                return None;
            }
            let (vv, q) = match parse_number_at(v, p3) {
                None => {
                    return None;
                },
                Some(x) => x,
            };
            cost = Some(vv);
            p4 = q;
        } else if chars_eq_str(&key, "uses") {
            assert(key@ == key_uses());
            proof {
                reveal_strlit("name");
                reveal_strlit("cost");
                reveal_strlit("uses");
                assert(key_uses()[0] == 'u' && key_name()[0] == 'n' && key_cost()[0] == 'c');
                assert(key@ != key_name() && key@ != key_cost());
            }
            if uses.is_some() {
                return None;
            }
            let (vv, q) = match parse_uses_arr_at(v, p3) {
                None => {
                    return None;
                },
                Some(x) => x,
            };
            uses = Some(vv);
            p4 = q;
        } else {
            proof {
                assert(key@ != key_name() && key@ != key_cost() && key@ != key_uses());
            }
            return None;
        }
        let p5 = skip_ws_at(v, p4);
        let ghost r5 = v@.skip(p5 as int);
        if p5 >= v.len() {
            assert(r5.len() == 0);
            return None;
        }
        assert(r5[0] == v@[p5 as int]);
        let c5 = v[p5];
        if c5 == '}' {
            match (name, cost, uses) {
                (Some(nv), Some(cv), Some(uv)) => {
                    assert(r5.skip(1) =~= v@.skip(p5 + 1));
                    let item_name = crate::text::chars_to_string(&nv);
                    let text = crate::text::chars_to_string(&cv);
                    let cost_val = crate::cost::Cost::from_valid_text(text);
                    let it = crate::item::ClothingItem { name: item_name, cost: cost_val, uses: uv };
                    proof {
                        let pair = parse_fields(v@.skip(pos as int), None, None, None)->0;
                        assert(it@ =~= pair.0);
                    }
                    return Some((it, p5 + 1));
                },
                _ => {
                    return None;
                },
            }
        }
        if c5 != ',' {
            return None;
        }
        assert(r5.len() < s_cur.len());
        assert(r5.skip(1) =~= v@.skip(p5 + 1));
        cur = p5 + 1;
    }
}

/// Reads one item at `pos`, as `parse_item` does.
fn parse_item_at(v: &Vec<char>, pos: usize) -> (r: Option<(crate::item::ClothingItem, usize)>)
    requires
        pos <= v@.len(),
    ensures
        match parse_item(v@.skip(pos as int)) {
            None => r is None,
            Some((m, rest)) => r matches Some((it, p)) && it@ == m && pos < p <= v@.len()
                && v@.skip(p as int) == rest,
        },
{
    let t = skip_ws_at(v, pos);
    let ghost ts = v@.skip(t as int);
    if t >= v.len() {
        assert(ts.len() == 0);
        return None;
    }
    assert(ts[0] == v@[t as int]);
    if v[t] != '{' {
        return None;
    }
    assert(ts.skip(1) =~= v@.skip(t + 1));
    parse_fields_at(v, t + 1)
}

/// Reads the elements of the item array at `pos`, as `parse_items_elems`
/// does.
fn parse_items_elems_at(v: &Vec<char>, pos: usize) -> (r: Option<
    (Vec<crate::item::ClothingItem>, usize),
>)
    requires
        pos <= v@.len(),
    ensures
        match parse_items_elems(v@.skip(pos as int)) {
            None => r is None,
            Some((ms, rest)) => r matches Some((iv, p)) && crate::item::doc_of(iv@) == ms && pos
                <= p <= v@.len() && v@.skip(p as int) == rest,
        },
{
    let mut acc: Vec<crate::item::ClothingItem> = Vec::new();
    let mut cur: usize = pos;
    loop
        invariant
            pos <= cur <= v.len(),
            (match parse_items_elems(v@.skip(cur as int)) {
                None => parse_items_elems(v@.skip(pos as int)) is None,
                Some((ms2, r2)) => parse_items_elems(v@.skip(pos as int)) matches Some((ms, r))
                    && ms == crate::item::doc_of(acc@) + ms2 && r == r2,
            }),
        decreases v@.len() - cur,
    {
        let ghost s_cur = v@.skip(cur as int);
        let (it, p) = match parse_item_at(v, cur) {
            None => {
                return None;
            },
            Some(x) => x,
        };
        let p2 = skip_ws_at(v, p);
        let ghost r2 = v@.skip(p2 as int);
        if p2 >= v.len() {
            assert(r2.len() == 0);
            return None;
        }
        assert(r2[0] == v@[p2 as int]);
        let c = v[p2];
        if c == ']' {
            let ghost prev = acc@;
            acc.push(it);
            proof {
                assert(r2.skip(1) =~= v@.skip(p2 + 1));
                assert(crate::item::doc_of(prev) + seq![it@] =~= crate::item::doc_of(acc@));
            }
            return Some((acc, p2 + 1));
        }
        if c != ',' {
            return None;
        }
        assert(r2.len() < s_cur.len());
        let ghost prev = acc@;
        acc.push(it);
        proof {
            assert(r2.skip(1) =~= v@.skip(p2 + 1));
            match parse_items_elems(v@.skip(p2 + 1)) {
                Some((ms2, r3)) => {
                    assert(crate::item::doc_of(prev) + (seq![it@] + ms2) =~= crate::item::doc_of(
                        acc@,
                    ) + ms2);
                },
                None => {},
            }
        }
        cur = p2 + 1;
    }
}

/// Reads a whole document, as `parse_doc` does on the string's characters.
pub(crate) fn read_doc(s: &str) -> (r: Option<Vec<crate::item::ClothingItem>>)
    ensures
        match parse_doc(s@) {
            None => r is None,
            Some(ms) => r matches Some(iv) && crate::item::doc_of(iv@) == ms,
        },
{
    let v = crate::text::str_chars(s);
    assert(v@.skip(0) =~= s@);
    let t = skip_ws_at(&v, 0);
    let ghost ts = v@.skip(t as int);
    if t >= v.len() {
        assert(ts.len() == 0);
        return None;
    }
    assert(ts[0] == v@[t as int]);
    if v[t] != '[' {
        return None;
    }
    assert(ts.skip(1) =~= v@.skip(t + 1));
    let u = skip_ws_at(&v, t + 1);
    let ghost us = v@.skip(u as int);
    if u < v.len() {
        assert(us[0] == v@[u as int]);
        if v[u] == ']' {
            assert(us.skip(1) =~= v@.skip(u + 1));
            let p_end = skip_ws_at(&v, u + 1);
            if p_end == v.len() {
                assert(v@.skip(p_end as int).len() == 0);
                let out: Vec<crate::item::ClothingItem> = Vec::new();
                proof {
                    assert(crate::item::doc_of(out@) =~= Seq::<ItemModel>::empty());
                }
                return Some(out);
            } else {
                assert(v@.skip(p_end as int).len() != 0);
                return None;
            }
        }
    } else {
        assert(us.len() == 0);
    }
    let (items, p) = match parse_items_elems_at(&v, t + 1) {
        None => {
            return None;
        },
        Some(x) => x,
    };
    let p_end = skip_ws_at(&v, p);
    if p_end == v.len() {
        assert(v@.skip(p_end as int).len() == 0);
        Some(items)
    } else {
        assert(v@.skip(p_end as int).len() != 0);
        None
    }
}

} // verus!
