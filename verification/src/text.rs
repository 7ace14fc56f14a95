//! Elementary text handling shared by the decoder and the encoder:
//! whitespace scanning, tokenization, decimal parsing and decimal rendering.

use vstd::prelude::*;

verus! {

/// Whitespace inside a single source line.
pub open spec fn is_space_char(c: char) -> bool {
    c == ' ' || c == '\t' || c == '\r'
}

pub fn is_space(c: char) -> (r: bool)
    ensures
        r == is_space_char(c),
{
    c == ' ' || c == '\t' || c == '\r'
}

/// Index of the first character satisfying `p`, or the length when none does.
pub open spec fn first_idx(s: Seq<char>, p: spec_fn(char) -> bool) -> nat
    decreases s.len(),
{
    if s.len() == 0 || p(s[0]) {
        0
    } else {
        1 + first_idx(s.drop_first(), p)
    }
}

pub proof fn lemma_first_idx_scan(s: Seq<char>, p: spec_fn(char) -> bool, i: int)
    requires
        0 <= i <= s.len(),
        forall|j: int| 0 <= j < i ==> !p(s[j]),
        i == s.len() || p(s[i]),
    ensures
        first_idx(s, p) == i,
    decreases i,
{
    if i == 0 {
    } else {
        assert(!p(s[0]));
        lemma_first_idx_scan(s.drop_first(), p, i - 1);
    }
}

pub proof fn lemma_first_idx_le_len(s: Seq<char>, p: spec_fn(char) -> bool)
    ensures
        first_idx(s, p) <= s.len(),
    decreases s.len(),
{
    if s.len() == 0 || p(s[0]) {
    } else {
        lemma_first_idx_le_len(s.drop_first(), p);
    }
}

pub open spec fn space_pred() -> spec_fn(char) -> bool {
    |c: char| is_space_char(c)
}

/// Length of the leading run of non-whitespace characters.
pub open spec fn token_len(s: Seq<char>) -> nat {
    first_idx(s, space_pred())
}

/// The whitespace-separated tokens of a line, in order.
pub open spec fn tokens_of(s: Seq<char>) -> Seq<Seq<char>>
    decreases s.len(),
    via tokens_of_decreases
{
    if s.len() == 0 {
        Seq::empty()
    } else if is_space_char(s[0]) {
        tokens_of(s.drop_first())
    } else {
        seq![s.take(token_len(s) as int)] + tokens_of(s.skip(token_len(s) as int))
    }
}

#[via_fn]
proof fn tokens_of_decreases(s: Seq<char>) {
    if s.len() > 0 && !is_space_char(s[0]) {
        lemma_first_idx_le_len(s, space_pred());
        assert(token_len(s) >= 1);
    }
}

/// Splits a line into its whitespace-separated tokens.
pub fn tokenize(s: &str) -> (r: Vec<String>)
    ensures
        r.deep_view() == tokens_of(s@),
    decreases s@.len(),
{
    let n = s.unicode_len();
    if n == 0 {
        let r: Vec<String> = Vec::new();
        assert(r.deep_view() =~= tokens_of(s@));
        return r;
    }
    let c0 = s.get_char(0);
    if is_space(c0) {
        let rest = s.substring_char(1, n);
        assert(rest@ == s@.drop_first());
        let r = tokenize(rest);
        return r;
    }
    let mut i: usize = 1;
    while i < n && !is_space(s.get_char(i))
        invariant
            1 <= i <= n,
            n == s@.len(),
            forall|j: int| 0 <= j < i ==> !is_space_char(s@[j]),
        decreases n - i,
    {
        i += 1;
    }
    proof {
        lemma_first_idx_scan(s@, space_pred(), i as int);
        assert(token_len(s@) == i);
    }
    let tok = s.substring_char(0, i);
    let rest = s.substring_char(i, n);
    let mut r: Vec<String> = Vec::new();
    r.push(tok.to_owned());
    let mut rr = tokenize(rest);
    r.append(&mut rr);
    proof {
        assert(tok@ == s@.take(i as int));
        assert(rest@ == s@.skip(i as int));
        assert(r.deep_view() =~= tokens_of(s@));
    }
    r
}

pub open spec fn hash_pred() -> spec_fn(char) -> bool {
    |c: char| c == '#'
}

/// A line with everything from the first comment marker onward removed.
pub open spec fn strip_comment_spec(l: Seq<char>) -> Seq<char> {
    l.take(first_idx(l, hash_pred()) as int)
}

pub fn strip_comment(s: &str) -> (r: String)
    ensures
        r@ == strip_comment_spec(s@),
{
    let n = s.unicode_len();
    let mut i: usize = 0;
    while i < n && s.get_char(i) != '#'
        invariant
            0 <= i <= n,
            n == s@.len(),
            forall|j: int| 0 <= j < i ==> s@[j] != '#',
        decreases n - i,
    {
        i += 1;
    }
    proof {
        lemma_first_idx_scan(s@, hash_pred(), i as int);
    }
    s.substring_char(0, i).to_owned()
}

/// A line with every comma removed; commas and whitespace separate
/// operands interchangeably.
pub open spec fn remove_commas_spec(s: Seq<char>) -> Seq<char>
    decreases s.len(),
{
    if s.len() == 0 {
        Seq::empty()
    } else if s.last() == ',' {
        remove_commas_spec(s.drop_last())
    } else {
        remove_commas_spec(s.drop_last()) + seq![s.last()]
    }
}

pub fn remove_commas(s: &str) -> (r: String)
    ensures
        r@ == remove_commas_spec(s@),
{
    let n = s.unicode_len();
    let mut r = String::new();
    let mut i: usize = 0;
    while i < n
        invariant
            0 <= i <= n,
            n == s@.len(),
            r@ == remove_commas_spec(s@.take(i as int)),
        decreases n - i,
    {
        let ghost pre = s@.take(i as int);
        let ghost cur = s@.take(i as int + 1);
        proof {
            assert(cur.drop_last() =~= pre);
            assert(cur.last() == s@[i as int]);
        }
        let c = s.get_char(i);
        if c != ',' {
            let piece = s.substring_char(i, i + 1);
            proof {
                assert(piece@ =~= seq![s@[i as int]]);
            }
            r.append(piece);
        }
        i += 1;
    }
    proof {
        assert(s@.take(n as int) =~= s@);
    }
    r
}

/// The name of a label line: the line with every colon and space removed.
pub open spec fn label_name_spec(s: Seq<char>) -> Seq<char>
    decreases s.len(),
{
    if s.len() == 0 {
        Seq::empty()
    } else if s.last() == ':' || s.last() == ' ' {
        label_name_spec(s.drop_last())
    } else {
        label_name_spec(s.drop_last()) + seq![s.last()]
    }
}

pub fn label_name_of(s: &str) -> (r: String)
    ensures
        r@ == label_name_spec(s@),
{
    let n = s.unicode_len();
    let mut r = String::new();
    let mut i: usize = 0;
    while i < n
        invariant
            0 <= i <= n,
            n == s@.len(),
            r@ == label_name_spec(s@.take(i as int)),
        decreases n - i,
    {
        let ghost pre = s@.take(i as int);
        let ghost cur = s@.take(i as int + 1);
        proof {
            assert(cur.drop_last() =~= pre);
            assert(cur.last() == s@[i as int]);
        }
        let c = s.get_char(i);
        if c != ':' && c != ' ' {
            let piece = s.substring_char(i, i + 1);
            proof {
                assert(piece@ =~= seq![s@[i as int]]);
            }
            r.append(piece);
        }
        i += 1;
    }
    proof {
        assert(s@.take(n as int) =~= s@);
    }
    r
}

pub open spec fn newline_pred() -> spec_fn(char) -> bool {
    |c: char| c == '\n'
}

/// A line without one trailing carriage return.
pub open spec fn strip_cr(l: Seq<char>) -> Seq<char> {
    if l.len() > 0 && l.last() == '\r' {
        l.drop_last()
    } else {
        l
    }
}

/// The lines of a text buffer, split at newlines, each without a trailing
/// carriage return.
pub open spec fn lines_of(s: Seq<char>) -> Seq<Seq<char>>
    decreases s.len(),
    via lines_of_decreases
{
    if s.len() == 0 {
        Seq::empty()
    } else {
        let n = first_idx(s, newline_pred()) as int;
        if n == s.len() {
            seq![strip_cr(s.take(n))]
        } else {
            seq![strip_cr(s.take(n))] + lines_of(s.skip(n + 1))
        }
    }
}

#[via_fn]
proof fn lines_of_decreases(s: Seq<char>) {
    if s.len() > 0 {
        lemma_first_idx_le_len(s, newline_pred());
    }
}

pub proof fn lemma_lines_of_len(s: Seq<char>)
    ensures
        lines_of(s).len() <= s.len(),
    decreases s.len(),
{
    if s.len() > 0 {
        lemma_first_idx_le_len(s, newline_pred());
        let n = first_idx(s, newline_pred()) as int;
        if n != s.len() {
            lemma_lines_of_len(s.skip(n + 1));
        }
    }
}

pub fn split_lines(s: &str) -> (r: Vec<String>)
    ensures
        r.deep_view() == lines_of(s@),
    decreases s@.len(),
{
    let n = s.unicode_len();
    if n == 0 {
        let r: Vec<String> = Vec::new();
        assert(r.deep_view() =~= lines_of(s@));
        return r;
    }
    let mut k: usize = 0;
    while k < n && s.get_char(k) != '\n'
        invariant
            0 <= k <= n,
            n == s@.len(),
            forall|j: int| 0 <= j < k ==> s@[j] != '\n',
        decreases n - k,
    {
        k += 1;
    }
    proof {
        lemma_first_idx_scan(s@, newline_pred(), k as int);
    }
    let line_end: usize = if k > 0 && s.get_char(k - 1) == '\r' {
        k - 1
    } else {
        k
    };
    let line = s.substring_char(0, line_end).to_owned();
    proof {
        let lk = s@.take(k as int);
        if k > 0 && s@[k as int - 1] == '\r' {
            assert(lk.last() == s@[k as int - 1]);
            assert(line@ =~= lk.drop_last());
        } else {
            if lk.len() > 0 && lk.last() == '\r' {
                assert(s@[k as int - 1] == '\r');
            }
            assert(line@ =~= lk);
        }
        assert(line@ == strip_cr(lk));
    }
    let mut r: Vec<String> = Vec::new();
    r.push(line);
    if k == n {
        proof {
            assert(r.deep_view() =~= lines_of(s@));
        }
        return r;
    }
    let rest = s.substring_char(k + 1, n);
    let mut rr = split_lines(rest);
    r.append(&mut rr);
    proof {
        assert(rest@ == s@.skip(k as int + 1));
        assert(r.deep_view() =~= lines_of(s@));
    }
    r
}

/// ASCII lower-casing of a single character; mnemonics are matched
/// case-insensitively.
pub open spec fn lower_char(c: char) -> char {
    match c {
        'A' => 'a',
        'B' => 'b',
        'C' => 'c',
        'D' => 'd',
        'E' => 'e',
        'F' => 'f',
        'G' => 'g',
        'H' => 'h',
        'I' => 'i',
        'J' => 'j',
        'K' => 'k',
        'L' => 'l',
        'M' => 'm',
        'N' => 'n',
        'O' => 'o',
        'P' => 'p',
        'Q' => 'q',
        'R' => 'r',
        'S' => 's',
        'T' => 't',
        'U' => 'u',
        'V' => 'v',
        'W' => 'w',
        'X' => 'x',
        'Y' => 'y',
        'Z' => 'z',
        _ => c,
    }
}

pub open spec fn lower_seq(s: Seq<char>) -> Seq<char> {
    Seq::new(s.len(), |i: int| lower_char(s[i]))
}

pub fn lower_char_exec(c: char) -> (r: char)
    ensures
        r == lower_char(c),
{
    match c {
        'A' => 'a',
        'B' => 'b',
        'C' => 'c',
        'D' => 'd',
        'E' => 'e',
        'F' => 'f',
        'G' => 'g',
        'H' => 'h',
        'I' => 'i',
        'J' => 'j',
        'K' => 'k',
        'L' => 'l',
        'M' => 'm',
        'N' => 'n',
        'O' => 'o',
        'P' => 'p',
        'Q' => 'q',
        'R' => 'r',
        'S' => 's',
        'T' => 't',
        'U' => 'u',
        'V' => 'v',
        'W' => 'w',
        'X' => 'x',
        'Y' => 'y',
        'Z' => 'z',
        _ => c,
    }
}

/// Case-insensitive comparison of `a` against an already lower-case `b`.
pub fn eq_lower(a: &str, b: &str) -> (r: bool)
    ensures
        r == (lower_seq(a@) == b@),
{
    let na = a.unicode_len();
    let nb = b.unicode_len();
    if na != nb {
        proof {
            assert(lower_seq(a@).len() != b@.len());
        }
        return false;
    }
    let mut i: usize = 0;
    while i < na
        invariant
            0 <= i <= na,
            na == a@.len(),
            na == b@.len(),
            forall|j: int| 0 <= j < i ==> lower_char(a@[j]) == b@[j],
        decreases na - i,
    {
        let ca = lower_char_exec(a.get_char(i));
        let cb = b.get_char(i);
        if ca != cb {
            proof {
                assert(lower_seq(a@)[i as int] != b@[i as int]);
            }
            return false;
        }
        i += 1;
    }
    proof {
        assert(lower_seq(a@) =~= b@);
    }
    true
}

/// Numeric value of a decimal digit, or -1 for any other character.
pub open spec fn spec_digit(c: char) -> int {
    match c {
        '0' => 0,
        '1' => 1,
        '2' => 2,
        '3' => 3,
        '4' => 4,
        '5' => 5,
        '6' => 6,
        '7' => 7,
        '8' => 8,
        '9' => 9,
        _ => -1,
    }
}

pub open spec fn is_digit_char(c: char) -> bool {
    spec_digit(c) >= 0
}

pub open spec fn all_digits(s: Seq<char>) -> bool {
    forall|i: int| 0 <= i < s.len() ==> is_digit_char(s[i])
}

/// Value of a digit string read left to right.
pub open spec fn digits_val(s: Seq<char>) -> int
    decreases s.len(),
{
    if s.len() == 0 {
        0
    } else {
        digits_val(s.drop_last()) * 10 + spec_digit(s.last())
    }
}

pub proof fn lemma_digits_val_nonneg(s: Seq<char>)
    requires
        all_digits(s),
    ensures
        digits_val(s) >= 0,
    decreases s.len(),
{
    if s.len() > 0 {
        assert(all_digits(s.drop_last()));
        lemma_digits_val_nonneg(s.drop_last());
    }
}

/// An unsigned decimal number: one or more digits.
pub open spec fn parse_unsigned(s: Seq<char>) -> Option<int> {
    if s.len() > 0 && all_digits(s) {
        Some(digits_val(s))
    } else {
        None
    }
}

/// A decimal integer with an optional leading sign, as `i8::from_str_radix`
/// reads one, before any range check.
pub open spec fn parse_int(s: Seq<char>) -> Option<int> {
    if s.len() > 0 && (s[0] == '-' || s[0] == '+') {
        match parse_unsigned(s.drop_first()) {
            Some(v) => Some(if s[0] == '-' { -v } else { v }),
            None => None,
        }
    } else {
        parse_unsigned(s)
    }
}

/// A decimal integer that fits the signed 8-bit field of the encoder.
pub open spec fn parse_i8(s: Seq<char>) -> Option<int> {
    match parse_int(s) {
        Some(v) => if -128 <= v && v <= 127 {
            Some(v)
        } else {
            None
        },
        None => None,
    }
}

pub fn digit_of(c: char) -> (r: Option<u8>)
    ensures
        match r {
            Some(d) => spec_digit(c) == d as int && d < 10,
            None => !is_digit_char(c),
        },
{
    match c {
        '0' => Some(0),
        '1' => Some(1),
        '2' => Some(2),
        '3' => Some(3),
        '4' => Some(4),
        '5' => Some(5),
        '6' => Some(6),
        '7' => Some(7),
        '8' => Some(8),
        '9' => Some(9),
        _ => None,
    }
}

/// Reads the digit run `s[from..to]`, capping the value at 1000 so that the
/// accumulator never overflows; a cap of 1000 still decides every range
/// check this crate makes.
fn digits_capped(s: &str, from: usize, to: usize) -> (r: Option<u32>)
    requires
        from <= to <= s@.len(),
    ensures
        match r {
            Some(v) => {
                &&& all_digits(s@.subrange(from as int, to as int))
                &&& v <= 1000
                &&& (v < 1000 ==> digits_val(s@.subrange(from as int, to as int)) == v as int)
                &&& (v == 1000 ==> digits_val(s@.subrange(from as int, to as int)) >= 1000)
            },
            None => !all_digits(s@.subrange(from as int, to as int)),
        },
{
    let mut i: usize = from;
    let mut acc: u32 = 0;
    while i < to
        invariant
            from <= i <= to <= s@.len(),
            acc <= 1000,
            all_digits(s@.subrange(from as int, i as int)),
            acc < 1000 ==> digits_val(s@.subrange(from as int, i as int)) == acc as int,
            acc == 1000 ==> digits_val(s@.subrange(from as int, i as int)) >= 1000,
        decreases to - i,
    {
        let c = s.get_char(i);
        let ghost pre = s@.subrange(from as int, i as int);
        let ghost cur = s@.subrange(from as int, i as int + 1);
        match digit_of(c) {
            None => {
                proof {
                    assert(cur[i - from] == c);
                    assert(!all_digits(s@.subrange(from as int, to as int))) by {
                        assert(s@.subrange(from as int, to as int)[i - from] == c);
                    }
                }
                return None;
            },
            Some(d) => {
                proof {
                    assert(cur.drop_last() =~= pre);
                    assert(cur.last() == c);
                    assert(digits_val(cur) == digits_val(pre) * 10 + d);
                    lemma_digits_val_nonneg(pre);
                }
                if acc >= 100 {
                    proof {
                        assert(digits_val(pre) >= 100);
                        assert(digits_val(cur) >= 1000);
                    }
                    acc = 1000;
                } else {
                    acc = acc * 10 + d as u32;
                    proof {
                        if acc == 1000 {
                            assert(digits_val(cur) >= 1000);
                        }
                    }
                }
                proof {
                    assert(forall|j: int| 0 <= j < cur.len() ==> is_digit_char(cur[j]));
                }
            },
        }
        i += 1;
    }
    proof {
        assert(s@.subrange(from as int, to as int) =~= s@.subrange(from as int, i as int));
    }
    Some(acc)
}

/// Reads a decimal integer that must fit a signed 8-bit field, the way the
/// encoder's bit conversion does.
pub fn parse_i8_str(s: &str) -> (r: Option<i8>)
    ensures
        match r {
            Some(v) => parse_i8(s@) == Some(v as int),
            None => parse_i8(s@) is None,
        },
{
    let n = s.unicode_len();
    if n == 0 {
        return None;
    }
    let c0 = s.get_char(0);
    let signed = c0 == '-' || c0 == '+';
    let start: usize = if signed {
        1
    } else {
        0
    };
    if n == start {
        return None;
    }
    let ghost body = s@.subrange(start as int, n as int);
    proof {
        if signed {
            assert(body =~= s@.drop_first());
        } else {
            assert(body =~= s@);
        }
    }
    match digits_capped(s, start, n) {
        None => {
            proof {
                if !signed {
                    assert(!is_digit_char(c0) ==> parse_unsigned(s@) is None);
                }
            }
            None
        },
        Some(v) => {
            proof {
                if !signed {
                    assert(s@[0] != '-' && s@[0] != '+') by {
                        assert(body[0] == s@[0]);
                    }
                }
            }
            if c0 == '-' {
                if v > 128 {
                    None
                } else if v == 128 {
                    Some(-128i8)
                } else {
                    Some(-((v as u8) as i8))
                }
            } else {
                if v > 127 {
                    None
                } else {
                    Some(v as u8 as i8)
                }
            }
        },
    }
}

/// A register index: one or more digits whose value lies in [0, 31].
pub open spec fn reg_index_of(s: Seq<char>) -> Option<int> {
    match parse_unsigned(s) {
        Some(v) => if v <= 31 {
            Some(v)
        } else {
            None
        },
        None => None,
    }
}

pub fn parse_reg_index(s: &str) -> (r: Option<u8>)
    ensures
        match r {
            Some(v) => reg_index_of(s@) == Some(v as int) && v <= 31,
            None => reg_index_of(s@) is None,
        },
{
    let n = s.unicode_len();
    if n == 0 {
        return None;
    }
    proof {
        assert(s@.subrange(0, n as int) =~= s@);
    }
    match digits_capped(s, 0, n) {
        None => None,
        Some(v) => {
            if v <= 31 {
                Some(v as u8)
            } else {
                None
            }
        },
    }
}

/// Character for a digit value; total, but only applied below 10.
pub open spec fn digit_char(d: int) -> char {
    if d == 0 {
        '0'
    } else if d == 1 {
        '1'
    } else if d == 2 {
        '2'
    } else if d == 3 {
        '3'
    } else if d == 4 {
        '4'
    } else if d == 5 {
        '5'
    } else if d == 6 {
        '6'
    } else if d == 7 {
        '7'
    } else if d == 8 {
        '8'
    } else {
        '9'
    }
}

/// Decimal digits of a non-negative number, most significant first.
pub open spec fn dec_digits(n: int) -> Seq<char>
    decreases n,
{
    if n < 10 {
        seq![digit_char(n)]
    } else {
        dec_digits(n / 10) + seq![digit_char(n % 10)]
    }
}

/// Decimal rendering of an integer, with a leading '-' when negative.
pub open spec fn dec_string_of_int(v: int) -> Seq<char> {
    if v < 0 {
        seq!['-'] + dec_digits(-v)
    } else {
        dec_digits(v)
    }
}

fn digit_str(d: u64) -> (r: &'static str)
    requires
        d < 10,
    ensures
        r@ =~= seq![digit_char(d as int)],
{
    match d {
        0 => {
            proof {
                reveal_strlit("0");
            }
            "0"
        },
        1 => {
            proof {
                reveal_strlit("1");
            }
            "1"
        },
        2 => {
            proof {
                reveal_strlit("2");
            }
            "2"
        },
        3 => {
            proof {
                reveal_strlit("3");
            }
            "3"
        },
        4 => {
            proof {
                reveal_strlit("4");
            }
            "4"
        },
        5 => {
            proof {
                reveal_strlit("5");
            }
            "5"
        },
        6 => {
            proof {
                reveal_strlit("6");
            }
            "6"
        },
        7 => {
            proof {
                reveal_strlit("7");
            }
            "7"
        },
        8 => {
            proof {
                reveal_strlit("8");
            }
            "8"
        },
        _ => {
            proof {
                reveal_strlit("9");
            }
            "9"
        },
    }
}

pub fn u64_to_dec(n: u64) -> (r: String)
    ensures
        r@ == dec_digits(n as int),
    decreases n,
{
    if n < 10 {
        let r = digit_str(n).to_owned();
        return r;
    }
    let mut r = u64_to_dec(n / 10);
    r.append(digit_str(n % 10));
    proof {
        assert(r@ =~= dec_digits(n as int));
    }
    r
}

pub fn i64_to_dec(v: i64) -> (r: String)
    requires
        v > i64::MIN,
    ensures
        r@ == dec_string_of_int(v as int),
{
    if v < 0 {
        proof {
            reveal_strlit("-");
        }
        let mut r = "-".to_owned();
        let m = u64_to_dec((-v) as u64);
        r.append(m.as_str());
        proof {
            assert(r@ =~= dec_string_of_int(v as int));
        }
        r
    } else {
        u64_to_dec(v as u64)
    }
}

/// The digits of a rendered number read back to the number itself.
pub proof fn lemma_dec_digits_ok(n: int)
    requires
        n >= 0,
    ensures
        dec_digits(n).len() >= 1,
        all_digits(dec_digits(n)),
        digits_val(dec_digits(n)) == n,
    decreases n,
{
    if n < 10 {
        assert(dec_digits(n) == seq![digit_char(n)]);
        assert(spec_digit(digit_char(n)) == n);
        assert(digits_val(dec_digits(n)) == digits_val(seq![digit_char(n)].drop_last()) * 10
            + spec_digit(digit_char(n)));
        assert(seq![digit_char(n)].drop_last() =~= Seq::<char>::empty());
    } else {
        lemma_dec_digits_ok(n / 10);
        let s = dec_digits(n);
        assert(s == dec_digits(n / 10) + seq![digit_char(n % 10)]);
        assert(s.drop_last() =~= dec_digits(n / 10));
        assert(s.last() == digit_char(n % 10));
        assert(spec_digit(digit_char(n % 10)) == n % 10);
        assert(digits_val(s) == (n / 10) * 10 + n % 10);
        assert((n / 10) * 10 + n % 10 == n) by {
            vstd::arithmetic::div_mod::lemma_fundamental_div_mod(n, 10);
        }
        assert(forall|i: int| 0 <= i < s.len() ==> is_digit_char(s[i]));
    }
}

/// Rendering an integer and parsing it back is the identity; this is what
/// carries a resolved label displacement intact from the decoder's decimal
/// text into the encoder's numeric field.
pub proof fn lemma_dec_parse_round_trip(v: int)
    ensures
        parse_int(dec_string_of_int(v)) == Some(v),
{
    if v < 0 {
        lemma_dec_digits_ok(-v);
        let s = dec_string_of_int(v);
        assert(s[0] == '-');
        assert(s.drop_first() =~= dec_digits(-v));
        assert(parse_unsigned(s.drop_first()) == Some(-v));
    } else {
        lemma_dec_digits_ok(v);
        let s = dec_string_of_int(v);
        assert(is_digit_char(s[0]));
        assert(s[0] != '-' && s[0] != '+');
        assert(parse_unsigned(s) == Some(v));
    }
}

} // verus!

