//! A monetary amount, kept as the exact JSON number text it was given.
//!
//! The store never computes with a cost; it only records it and writes it
//! into the JSON document.  Holding the number text itself keeps the amount
//! exact and makes the document reproduce it verbatim.  The accepted texts
//! are exactly the JSON numbers: an optional minus sign, an integer part
//! without leading zeros, an optional fraction, and an optional exponent.

use vstd::prelude::*;

use crate::date::is_digit;

verus! {

pub open spec fn all_digits(s: Seq<char>) -> bool {
    forall|i: int| 0 <= i < s.len() ==> is_digit(#[trigger] s[i])
}

/// A JSON integer part: digits, no leading zero unless it is the single
/// digit zero.
pub open spec fn int_part_ok(s: Seq<char>) -> bool {
    s.len() > 0 && all_digits(s) && (s[0] != '0' || s.len() == 1)
}

/// A JSON number's mantissa without its sign: an integer part, optionally
/// followed by a dot and one or more fractional digits.
pub open spec fn number_body_ok(s: Seq<char>) -> bool {
    int_part_ok(s) || (exists|k: int|
        0 <= k < s.len() && s[k] == '.' && int_part_ok(#[trigger] s.take(k)) && all_digits(
            s.skip(k + 1),
        ) && s.len() > k + 1)
}

/// A JSON number's mantissa: an optional minus sign and a body.
pub open spec fn mantissa_ok(s: Seq<char>) -> bool {
    if s.len() > 0 && s[0] == '-' {
        number_body_ok(s.skip(1))
    } else {
        number_body_ok(s)
    }
}

pub open spec fn is_exp_mark(c: char) -> bool {
    c == 'e' || c == 'E'
}

/// What may follow the exponent mark: an optional sign and digits.
pub open spec fn exp_ok(s: Seq<char>) -> bool {
    if s.len() > 0 && (s[0] == '+' || s[0] == '-') {
        s.len() > 1 && all_digits(s.skip(1))
    } else {
        s.len() > 0 && all_digits(s)
    }
}

/// The text of a JSON number: a mantissa, optionally followed by an
/// exponent mark and an exponent.
pub open spec fn is_number_text(s: Seq<char>) -> bool {
    mantissa_ok(s) || (exists|j: int|
        0 <= j < s.len() && is_exp_mark(s[j]) && mantissa_ok(#[trigger] s.take(j)) && exp_ok(
            s.skip(j + 1),
        ))
}

/// The characters a JSON number text may contain.
pub open spec fn is_number_char(c: char) -> bool {
    is_digit(c) || c == '-' || c == '+' || c == '.' || is_exp_mark(c)
}

/// Every character of a mantissa is a digit, a minus sign or a dot.
pub proof fn lemma_mantissa_chars(s: Seq<char>)
    requires
        mantissa_ok(s),
    ensures
        s.len() > 0,
        forall|i: int|
            0 <= i < s.len() ==> is_digit(#[trigger] s[i]) || s[i] == '-' || s[i] == '.',
{
    let b = if s[0] == '-' {
        s.skip(1)
    } else {
        s
    };
    let off: int = if s[0] == '-' {
        1
    } else {
        0
    };
    assert forall|i: int| 0 <= i < s.len() implies is_digit(#[trigger] s[i]) || s[i] == '-'
        || s[i] == '.' by {
        if i >= off {
            assert(s[i] == b[i - off]);
            if !int_part_ok(b) {
                let k = choose|k: int|
                    0 <= k < b.len() && b[k] == '.' && int_part_ok(#[trigger] b.take(k))
                        && all_digits(b.skip(k + 1)) && b.len() > k + 1;
                if i - off < k {
                    assert(b.take(k)[i - off] == b[i - off]);
                } else if i - off > k {
                    assert(b.skip(k + 1)[i - off - k - 1] == b[i - off]);
                }
            }
        }
    }
}

/// Every character of an exponent is a digit or a sign.
pub proof fn lemma_exp_chars(s: Seq<char>)
    requires
        exp_ok(s),
    ensures
        forall|i: int|
            0 <= i < s.len() ==> is_digit(#[trigger] s[i]) || s[i] == '+' || s[i] == '-',
{
    assert forall|i: int| 0 <= i < s.len() implies is_digit(#[trigger] s[i]) || s[i] == '+'
        || s[i] == '-' by {
        if i > 0 && (s[0] == '+' || s[0] == '-') {
            assert(s.skip(1)[i - 1] == s[i]);
        }
    }
}

/// Every character of a number text is a number character.
pub proof fn lemma_number_text_chars(s: Seq<char>)
    requires
        is_number_text(s),
    ensures
        s.len() > 0,
        forall|i: int| 0 <= i < s.len() ==> is_number_char(#[trigger] s[i]),
{
    if mantissa_ok(s) {
        lemma_mantissa_chars(s);
    } else {
        let j = choose|j: int|
            0 <= j < s.len() && is_exp_mark(s[j]) && mantissa_ok(#[trigger] s.take(j)) && exp_ok(
                s.skip(j + 1),
            );
        lemma_mantissa_chars(s.take(j));
        lemma_exp_chars(s.skip(j + 1));
        assert forall|i: int| 0 <= i < s.len() implies is_number_char(#[trigger] s[i]) by {
            if i < j {
                assert(s.take(j)[i] == s[i]);
            } else if i > j {
                assert(s.skip(j + 1)[i - j - 1] == s[i]);
            }
        }
    }
}

fn is_digit_exec(c: char) -> (r: bool)
    ensures
        r == is_digit(c),
{
    let u = c as u32;
    48 <= u && u <= 57
}

fn all_digits_exec(v: &Vec<char>, from: usize, to: usize) -> (r: bool)
    requires
        from <= to <= v@.len(),
    ensures
        r == all_digits(v@.subrange(from as int, to as int)),
{
    let ghost s = v@.subrange(from as int, to as int);
    let mut i: usize = from;
    while i < to
        invariant
            from <= i <= to <= v.len(),
            s == v@.subrange(from as int, to as int),
            forall|j: int| 0 <= j < i - from ==> is_digit(#[trigger] s[j]),
        decreases to - i,
    {
        if !is_digit_exec(v[i]) {
            assert(s[i - from] == v@[i as int]);
            return false;
        }
        assert(s[i - from] == v@[i as int]);
        i += 1;
    }
    true
}

fn int_part_ok_exec(v: &Vec<char>, from: usize, to: usize) -> (r: bool)
    requires
        from <= to <= v@.len(),
    ensures
        r == int_part_ok(v@.subrange(from as int, to as int)),
{
    let ghost s = v@.subrange(from as int, to as int);
    if from == to {
        return false;
    }
    if !all_digits_exec(v, from, to) {
        return false;
    }
    assert(s[0] == v@[from as int]);
    v[from] != '0' || to - from == 1
}

/// Whether the characters in `[from, to)` form a mantissa, as
/// `mantissa_ok` says.
fn mantissa_exec(v: &Vec<char>, from: usize, to: usize) -> (r: bool)
    requires
        from <= to <= v@.len(),
    ensures
        r == mantissa_ok(v@.subrange(from as int, to as int)),
{
    let ghost s = v@.subrange(from as int, to as int);
    if from == to {
        return false;
    }
    assert(s[0] == v@[from as int]);
    let start: usize = if v[from] == '-' {
        from + 1
    } else {
        from
    };
    let ghost b = if s[0] == '-' {
        s.skip(1)
    } else {
        s
    };
    assert(b =~= v@.subrange(start as int, to as int));
    // find the first dot in [start, to), if any
    let mut dot: usize = to;
    let mut i: usize = start;
    loop
        invariant_except_break
            start <= i <= to,
            dot == to,
            to <= v.len(),
            forall|j: int| start <= j < i ==> v@[j] != '.',
        invariant
            start <= to <= v.len(),
        ensures
            start <= dot <= to,
            dot < to ==> v@[dot as int] == '.',
            forall|j: int| start <= j < dot ==> v@[j] != '.',
        decreases to - i,
    {
        if i >= to {
            break;
        }
        if v[i] == '.' {
            dot = i;
            break;
        }
        i += 1;
    }
    let ghost k = dot - start;
    if dot == to {
        // no dot at all: the body must be a bare integer part
        let r = int_part_ok_exec(v, start, to);
        proof {
            if !r && number_body_ok(b) {
                let k2 = choose|k2: int|
                    0 <= k2 < b.len() && b[k2] == '.' && int_part_ok(#[trigger] b.take(k2))
                        && all_digits(b.skip(k2 + 1)) && b.len() > k2 + 1;
                assert(v@[start + k2] == b[k2]);
            }
        }
        return r;
    }
    assert(b[k as int] == v@[dot as int]);
    if dot + 1 >= to {
        // a trailing dot with no fractional digits
        proof {
            if number_body_ok(b) {
                if int_part_ok(b) {
                    assert(is_digit(b[k as int]));
                } else {
                    let k2 = choose|k2: int|
                        0 <= k2 < b.len() && b[k2] == '.' && int_part_ok(#[trigger] b.take(k2))
                            && all_digits(b.skip(k2 + 1)) && b.len() > k2 + 1;
                    assert(b.len() == k + 1);
                    assert(k2 < k);
                    assert(b.skip(k2 + 1)[k - k2 - 1] == b[k as int]);
                }
            }
        }
        return false;
    }
    // dot at index `dot`; the split there must work, and no other split can
    let ok1 = int_part_ok_exec(v, start, dot);
    let ok2 = all_digits_exec(v, dot + 1, to);
    proof {
        assert(b.take(k as int) =~= v@.subrange(start as int, dot as int));
        assert(b.skip(k + 1) =~= v@.subrange(dot + 1, to as int));
        if ok1 && ok2 {
            assert(number_body_ok(b));
        } else if number_body_ok(b) {
            if int_part_ok(b) {
                assert(is_digit(b[k as int]));
            } else {
                let k2 = choose|k2: int|
                    0 <= k2 < b.len() && b[k2] == '.' && int_part_ok(#[trigger] b.take(k2))
                        && all_digits(b.skip(k2 + 1)) && b.len() > k2 + 1;
                if k2 < k {
                    assert(b.skip(k2 + 1)[k - k2 - 1] == b[k as int]);
                    assert(!all_digits(b.skip(k2 + 1)));
                } else if k2 > k {
                    assert(b.take(k2)[k as int] == b[k as int]);
                    assert(!int_part_ok(b.take(k2)));
                }
                assert(k2 == k);
                assert(false);
            }
        }
    }
    ok1 && ok2
}

/// Whether the characters in `[from, to)` form an exponent, as `exp_ok`
/// says.
fn exp_tail_exec(v: &Vec<char>, from: usize, to: usize) -> (r: bool)
    requires
        from <= to <= v@.len(),
    ensures
        r == exp_ok(v@.subrange(from as int, to as int)),
{
    let ghost s = v@.subrange(from as int, to as int);
    if from == to {
        return false;
    }
    assert(s[0] == v@[from as int]);
    if v[from] == '+' || v[from] == '-' {
        assert(s.skip(1) =~= v@.subrange(from + 1, to as int));
        from + 1 < to && all_digits_exec(v, from + 1, to)
    } else {
        all_digits_exec(v, from, to)
    }
}

/// Whether the characters of `v` form a JSON number text, as
/// `is_number_text` says.
pub(crate) fn number_text_exec(v: &Vec<char>) -> (r: bool)
    ensures
        r == is_number_text(v@),
{
    let ghost s = v@;
    let n = v.len();
    proof {
        assert(s =~= v@.subrange(0, n as int));
    }
    // find the first exponent mark, if any
    let mut epos: usize = n;
    let mut i: usize = 0;
    loop
        invariant_except_break
            i <= n,
            epos == n,
            n == v.len(),
            forall|j: int| 0 <= j < i ==> !is_exp_mark(v@[j]),
        invariant
            n == v.len(),
        ensures
            epos <= n,
            epos < n ==> is_exp_mark(v@[epos as int]),
            forall|j: int| 0 <= j < epos ==> !is_exp_mark(v@[j]),
        decreases n - i,
    {
        if i >= n {
            break;
        }
        let c = v[i];
        if c == 'e' || c == 'E' {
            epos = i;
            break;
        }
        i += 1;
    }
    if epos == n {
        // no exponent mark: the whole text must be a mantissa
        let r = mantissa_exec(v, 0, n);
        proof {
            if !r && is_number_text(s) {
                let j = choose|j: int|
                    0 <= j < s.len() && is_exp_mark(s[j]) && mantissa_ok(#[trigger] s.take(j))
                        && exp_ok(s.skip(j + 1));
                assert(is_exp_mark(v@[j]));
            }
        }
        return r;
    }
    // exponent mark at `epos`; the split there must work, and no other can
    let ok1 = mantissa_exec(v, 0, epos);
    let ok2 = exp_tail_exec(v, epos + 1, n);
    proof {
        assert(s.take(epos as int) =~= v@.subrange(0, epos as int));
        assert(s.skip(epos + 1) =~= v@.subrange(epos + 1, n as int));
        if ok1 && ok2 {
            assert(is_number_text(s));
        } else if is_number_text(s) {
            if mantissa_ok(s) {
                lemma_mantissa_chars(s);
                assert(is_digit(s[epos as int]) || s[epos as int] == '-' || s[epos as int]
                    == '.');
                assert(false);
            } else {
                let j = choose|j: int|
                    0 <= j < s.len() && is_exp_mark(s[j]) && mantissa_ok(#[trigger] s.take(j))
                        && exp_ok(s.skip(j + 1));
                if j < epos {
                    assert(!is_exp_mark(v@[j]));
                    assert(false);
                } else if j > epos {
                    lemma_mantissa_chars(s.take(j));
                    assert(s.take(j)[epos as int] == s[epos as int]);
                    assert(false);
                }
                assert(j == epos);
                assert(false);
            }
        }
    }
    ok1 && ok2
}

/// A monetary amount, kept as the exact number text it will show in the
/// JSON document.
pub struct Cost {
    pub(crate) text: String,
}

impl Cost {
    #[verifier::type_invariant]
    pub(crate) open spec fn inv(self) -> bool {
        is_number_text(self@)
    }

    /// Accepts exactly the texts that `is_number_text` admits.
    pub fn new(text: String) -> (r: Option<Cost>)
        ensures
            r is Some <==> is_number_text(text@),
            r is Some ==> r->0@ == text@,
    {
        let v = crate::text::str_chars(text.as_str());
        if number_text_exec(&v) {
            Some(Cost { text })
        } else {
            None
        }
    }

    /// Wraps a text already known to be a number text.
    pub(crate) fn from_valid_text(text: String) -> (r: Cost)
        requires
            is_number_text(text@),
        ensures
            r@ == text@,
    {
        Cost { text }
    }

    /// The number text itself.
    pub fn text(&self) -> (r: &String)
        ensures
            r@ == self@,
    {
        &self.text
    }

    /// A copy with the same text.
    pub fn duplicate(&self) -> (r: Cost)
        ensures
            r@ == self@,
    {
        proof {
            use_type_invariant(self);
        }
        Cost { text: self.text.clone() }
    }
}

impl View for Cost {
    type V = Seq<char>;

    closed spec fn view(&self) -> Seq<char> {
        self.text@
    }
}

} // verus!
