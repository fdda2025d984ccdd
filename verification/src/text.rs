//! Character classes and decimal numerals, counted and compared by character.

use vstd::prelude::*;

verus! {

/// The Unicode `White_Space` characters, the set that `str::trim` removes.
pub open spec fn is_space_char(c: char) -> bool {
    c == ' ' || c == '\t' || c == '\n' || c == '\u{b}' || c == '\u{c}' || c == '\r'
        || c == '\u{85}' || c == '\u{a0}' || c == '\u{1680}'
        || ('\u{2000}' as u32 <= c as u32 && c as u32 <= '\u{200a}' as u32)
        || c == '\u{2028}' || c == '\u{2029}' || c == '\u{202f}' || c == '\u{205f}'
        || c == '\u{3000}'
}

pub fn is_space(c: char) -> (r: bool)
    ensures
        r == is_space_char(c),
{
    let u = c as u32;
    u == 0x20 || (0x9 <= u && u <= 0xd) || u == 0x85 || u == 0xa0 || u == 0x1680
        || (0x2000 <= u && u <= 0x200a) || u == 0x2028 || u == 0x2029 || u == 0x202f
        || u == 0x205f || u == 0x3000
}

/// The characters an operator may be spelled from.
pub open spec fn is_sigil_char(c: char) -> bool {
    c == '=' || c == '+' || c == '-'
}

pub fn is_operator_sigil(c: char) -> (r: bool)
    ensures
        r == is_sigil_char(c),
{
    c == '=' || c == '+' || c == '-'
}

/// What `char::is_alphanumeric` returns on characters beyond ASCII; the
/// Unicode tables behind it are not restated here.
pub uninterp spec fn is_alnum_high(c: char) -> bool;

/// Alphanumeric characters: on ASCII exactly letters and digits, beyond
/// ASCII whatever the Unicode tables say. An alphanumeric character is never
/// white space: `Alphabetic` and `Nd` are disjoint from `White_Space`.
pub open spec fn is_alnum_char(c: char) -> bool {
    if (c as u32) < 0x80 {
        ('a' as u32 <= c as u32 && c as u32 <= 'z' as u32)
            || ('A' as u32 <= c as u32 && c as u32 <= 'Z' as u32)
            || ('0' as u32 <= c as u32 && c as u32 <= '9' as u32)
    } else {
        is_alnum_high(c) && !is_space_char(c)
    }
}

/// Relies on `char::is_alphanumeric`: it depends on the character alone; on
/// ASCII it holds exactly for the letters and the digits, and it never holds
/// of a `White_Space` character, the two Unicode classes being disjoint.
#[verifier::external_body]
pub fn is_alnum(c: char) -> (r: bool)
    ensures
        r == is_alnum_char(c),
        c as u32 >= 0x80 ==> r == is_alnum_high(c),
{
    c.is_alphanumeric()
}

pub open spec fn is_digit_char(c: char) -> bool {
    '0' as u32 <= c as u32 && c as u32 <= '9' as u32
}

pub open spec fn digit_val(c: char) -> int {
    c as u32 - '0' as u32
}

pub open spec fn all_digits(s: Seq<char>) -> bool {
    forall|i: int| 0 <= i < s.len() ==> is_digit_char(#[trigger] s[i])
}

/// The value of a run of decimal digits, most significant first.
pub open spec fn digits_val(s: Seq<char>) -> int
    decreases s.len(),
{
    if s.len() == 0 {
        0
    } else {
        digits_val(s.drop_last()) * 10 + digit_val(s.last())
    }
}

/// An unsigned numeral as `usize::from_str` reads it: an optional leading `+`,
/// then at least one digit.
pub open spec fn number_body(s: Seq<char>) -> Seq<char> {
    if s.len() > 0 && s[0] == '+' {
        s.skip(1)
    } else {
        s
    }
}

pub open spec fn is_number_text(s: Seq<char>) -> bool {
    number_body(s).len() > 0 && all_digits(number_body(s))
}

/// The value named by a numeral.
pub open spec fn number_val(s: Seq<char>) -> int {
    digits_val(number_body(s))
}

pub proof fn lemma_digits_val_nonneg(s: Seq<char>)
    requires
        all_digits(s),
    ensures
        digits_val(s) >= 0,
    decreases s.len(),
{
    if s.len() > 0 {
        assert(all_digits(s.drop_last()));
        lemma_digits_val_nonneg(s.drop_last());
    }
}

pub proof fn lemma_digits_val_take_step(s: Seq<char>, k: int)
    requires
        0 <= k < s.len(),
    ensures
        digits_val(s.take(k + 1)) == digits_val(s.take(k)) * 10 + digit_val(s[k]),
{
    assert(s.take(k + 1).drop_last() =~= s.take(k));
    assert(s.take(k + 1).last() == s[k]);
}

/// Appending digits never shrinks the value: the value of a prefix is a lower
/// bound for the value of the whole run.
pub proof fn lemma_digits_val_take_le(s: Seq<char>, k: int)
    requires
        all_digits(s),
        0 <= k <= s.len(),
    ensures
        digits_val(s.take(k)) <= digits_val(s),
    decreases s.len() - k,
{
    if k < s.len() {
        lemma_digits_val_take_step(s, k);
        assert(all_digits(s.take(k))) by {
            assert(forall|i: int|
                0 <= i < k ==> is_digit_char(#[trigger] s.take(k)[i]) == is_digit_char(s[i]));
        }
        lemma_digits_val_nonneg(s.take(k));
        assert(digits_val(s.take(k)) <= digits_val(s.take(k + 1)));
        lemma_digits_val_take_le(s, k + 1);
    } else {
        assert(s.take(k) =~= s);
    }
}

/// Reads a decimal numeral, as `usize::from_str` would: `None` when the text
/// is not a numeral or its value does not fit.
pub fn parse_decimal(s: &str) -> (r: Option<usize>)
    ensures
        match r {
            Some(v) => is_number_text(s@) && number_val(s@) == v,
            None => !(is_number_text(s@) && number_val(s@) <= usize::MAX),
        },
{
    let len = s.unicode_len();
    let mut i: usize = 0;
    if len > 0 && s.get_char(0) == '+' {
        i = 1;
    }
    let ghost body = number_body(s@);
    assert(body =~= s@.skip(i as int));
    if i >= len {
        return None;
    }
    let mut acc: usize = 0;
    let start = i;
    while i < len
        invariant
            start <= i <= len,
            len == s@.len(),
            start == (if s@.len() > 0 && s@[0] == '+' { 1int } else { 0int }),
            body == number_body(s@),
            body == s@.skip(start as int),
            all_digits(body.take(i - start)),
            acc == digits_val(body.take(i - start)),
        decreases len - i,
    {
        let c = s.get_char(i);
        let u = c as u32;
        if u < 0x30 || u > 0x39 {
            assert(!is_digit_char(body[i - start]));
            return None;
        }
        let d = (u - 0x30) as usize;
        proof {
            lemma_digits_val_take_step(body, i - start);
            assert(body.take(i - start + 1).drop_last() =~= body.take(i - start));
        }
        let next = match acc.checked_mul(10) {
            Some(x) => match x.checked_add(d) {
                Some(y) => y,
                None => {
                    proof {
                        overflow_case(body, i - start, s@);
                    }
                    return None;
                },
            },
            None => {
                proof {
                    overflow_case(body, i - start, s@);
                }
                return None;
            },
        };
        acc = next;
        i = i + 1;
    }
    assert(body.take(i - start) =~= body);
    Some(acc)
}

proof fn overflow_case(body: Seq<char>, k: int, s: Seq<char>)
    requires
        body == number_body(s),
        0 <= k < body.len(),
        all_digits(body.take(k)),
        is_digit_char(body[k]),
        digits_val(body.take(k)) * 10 + digit_val(body[k]) > usize::MAX,
    ensures
        !(is_number_text(s) && number_val(s) <= usize::MAX),
{
    if all_digits(body) {
        lemma_digits_val_take_step(body, k);
        lemma_digits_val_take_le(body, k + 1);
    } else {
        assert(!is_number_text(s));
    }
}

pub open spec fn digit_char_of(d: int) -> char {
    if d == 0 { '0' } else if d == 1 { '1' } else if d == 2 { '2' } else if d == 3 { '3' }
    else if d == 4 { '4' } else if d == 5 { '5' } else if d == 6 { '6' } else if d == 7 { '7' }
    else if d == 8 { '8' } else { '9' }
}

/// The canonical decimal spelling of a number: no sign, no leading zero.
pub open spec fn spec_digits(n: int) -> Seq<char>
    decreases n,
{
    if n < 10 {
        seq![digit_char_of(n)]
    } else {
        spec_digits(n / 10).push(digit_char_of(n % 10))
    }
}

fn digit_str(d: usize) -> (r: &'static str)
    requires
        d < 10,
    ensures
        r@ == seq![digit_char_of(d as int)],
{
    proof {
        reveal_strlit("0");
        reveal_strlit("1");
        reveal_strlit("2");
        reveal_strlit("3");
        reveal_strlit("4");
        reveal_strlit("5");
        reveal_strlit("6");
        reveal_strlit("7");
        reveal_strlit("8");
        reveal_strlit("9");
    }
    let r = match d {
        0 => "0",
        1 => "1",
        2 => "2",
        3 => "3",
        4 => "4",
        5 => "5",
        6 => "6",
        7 => "7",
        8 => "8",
        _ => "9",
    };
    assert(r@ =~= seq![digit_char_of(d as int)]);
    r
}

/// The digit characters of `ds`, read back to front.
pub open spec fn rev_digit_chars(ds: Seq<usize>) -> Seq<char> {
    Seq::new(ds.len(), |i: int| digit_char_of(ds[ds.len() - 1 - i] as int))
}

/// Writes `n` in decimal, the spelling that `parse_decimal` reads back.
pub fn render_decimal(n: usize) -> (r: String)
    ensures
        r@ == spec_digits(n as int),
{
    let mut digits: Vec<usize> = Vec::new();
    let mut m = n;
    loop
        invariant_except_break
            spec_digits(n as int) == spec_digits(m as int) + rev_digit_chars(digits@),
            digits@.len() == 0 || m > 0,
        invariant
            forall|i: int| 0 <= i < digits@.len() ==> #[trigger] digits@[i] < 10,
        ensures
            spec_digits(n as int) == rev_digit_chars(digits@),
        decreases m,
    {
        let d = m % 10;
        let next = m / 10;
        proof {
            let ds = digits@;
            let ds2 = ds.push(d);
            assert(rev_digit_chars(ds2) =~= seq![digit_char_of(d as int)] + rev_digit_chars(ds));
            if next > 0 {
                assert(spec_digits(m as int) == spec_digits(next as int).push(
                    digit_char_of(d as int),
                ));
                assert(spec_digits(next as int).push(digit_char_of(d as int)) =~= spec_digits(
                    next as int,
                ) + seq![digit_char_of(d as int)]);
                assert(spec_digits(next as int) + seq![digit_char_of(d as int)] + rev_digit_chars(
                    ds,
                ) =~= spec_digits(next as int) + (seq![digit_char_of(d as int)] + rev_digit_chars(
                    ds,
                )));
                assert(spec_digits(n as int) == spec_digits(next as int) + rev_digit_chars(ds2));
            } else {
                assert(m < 10);
                assert(spec_digits(m as int) =~= seq![digit_char_of(d as int)]);
                assert(seq![digit_char_of(d as int)] + rev_digit_chars(ds) =~= rev_digit_chars(
                    ds2,
                ));
                assert(spec_digits(n as int) == rev_digit_chars(ds2));
            }
        }
        digits.push(d);
        m = next;
        if m == 0 {
            break;
        }
    }
    let mut out = String::new();
    let mut j = digits.len();
    assert(out@ =~= rev_digit_chars(digits@).take(digits@.len() - j));
    while j > 0
        invariant
            j <= digits@.len(),
            forall|i: int| 0 <= i < digits@.len() ==> #[trigger] digits@[i] < 10,
            out@ == rev_digit_chars(digits@).take(digits@.len() - j),
            spec_digits(n as int) == rev_digit_chars(digits@),
        decreases j,
    {
        let d = digits[j - 1];
        let piece = digit_str(d);
        out.append(piece);
        j = j - 1;
        proof {
            let ds = digits@;
            let full = rev_digit_chars(ds);
            assert(full[ds.len() - 1 - (j as int)] == digit_char_of(ds[j as int] as int));
            assert(out@ =~= full.take(ds.len() - j));
        }
    }
    proof {
        assert(out@ =~= rev_digit_chars(digits@));
    }
    out
}

/// The canonical spelling parses back to the number it was made from.
pub proof fn lemma_decimal_round_trip(n: int)
    requires
        0 <= n,
    ensures
        all_digits(spec_digits(n)),
        spec_digits(n).len() > 0,
        digits_val(spec_digits(n)) == n,
        is_number_text(spec_digits(n)),
        number_val(spec_digits(n)) == n,
    decreases n,
{
    if n < 10 {
        assert(spec_digits(n) =~= seq![digit_char_of(n)]);
        assert(spec_digits(n).drop_last() =~= Seq::<char>::empty());
        assert(digit_val(digit_char_of(n)) == n);
        assert(digits_val(spec_digits(n)) == digits_val(Seq::<char>::empty()) * 10 + digit_val(
            digit_char_of(n),
        ));
    } else {
        lemma_decimal_round_trip(n / 10);
        let s = spec_digits(n);
        assert(s == spec_digits(n / 10).push(digit_char_of(n % 10)));
        assert(s.drop_last() =~= spec_digits(n / 10));
        assert(s.last() == digit_char_of(n % 10));
        assert(digit_val(digit_char_of(n % 10)) == n % 10);
        assert(digits_val(s) == (n / 10) * 10 + n % 10);
        assert((n / 10) * 10 + n % 10 == n) by (nonlinear_arith);
        assert(all_digits(s)) by {
            assert(forall|i: int|
                0 <= i < s.len() - 1 ==> #[trigger] s[i] == spec_digits(n / 10)[i]);
        }
    }
    assert(number_body(spec_digits(n)) == spec_digits(n)) by {
        assert(spec_digits(n)[0] != '+') by {
            lemma_spec_digits_first(n);
        }
    }
}

pub open spec fn contains_char(s: Seq<char>, c: char) -> bool {
    exists|i: int| 0 <= i < s.len() && s[i] == c
}

/// The position of the first occurrence of `c`, or the length when absent.
pub open spec fn first_ix(s: Seq<char>, c: char) -> int
    decreases s.len(),
{
    if s.len() == 0 {
        0
    } else if s[0] == c {
        0
    } else {
        1 + first_ix(s.skip(1), c)
    }
}

pub proof fn lemma_first_ix(s: Seq<char>, c: char)
    ensures
        0 <= first_ix(s, c) <= s.len(),
        first_ix(s, c) < s.len() ==> s[first_ix(s, c)] == c,
        forall|j: int| 0 <= j < first_ix(s, c) ==> s[j] != c,
        (first_ix(s, c) < s.len()) == contains_char(s, c),
    decreases s.len(),
{
    if s.len() > 0 && s[0] != c {
        lemma_first_ix(s.skip(1), c);
        assert(forall|j: int| 1 <= j < s.len() ==> s[j] == s.skip(1)[j - 1]);
        if contains_char(s, c) {
            let w = choose|i: int| 0 <= i < s.len() && s[i] == c;
            assert(s.skip(1)[w - 1] == c);
            assert(contains_char(s.skip(1), c));
        }
    }
}

/// A position holding `c` with none before it is the first one.
pub proof fn lemma_first_ix_unique(s: Seq<char>, c: char, i: int)
    requires
        0 <= i < s.len(),
        s[i] == c,
        forall|j: int| 0 <= j < i ==> s[j] != c,
    ensures
        first_ix(s, c) == i,
{
    lemma_first_ix(s, c);
    assert(contains_char(s, c));
}

/// The length of the leading run of characters satisfying `p`.
pub open spec fn first_not(s: Seq<char>, p: spec_fn(char) -> bool) -> int
    decreases s.len(),
{
    if s.len() == 0 {
        0
    } else if !p(s[0]) {
        0
    } else {
        1 + first_not(s.skip(1), p)
    }
}

pub proof fn lemma_first_not(s: Seq<char>, p: spec_fn(char) -> bool)
    ensures
        0 <= first_not(s, p) <= s.len(),
        first_not(s, p) < s.len() ==> !p(s[first_not(s, p)]),
        forall|j: int| 0 <= j < first_not(s, p) ==> p(s[j]),
    decreases s.len(),
{
    if s.len() > 0 && p(s[0]) {
        lemma_first_not(s.skip(1), p);
        assert(forall|j: int| 1 <= j < s.len() ==> s[j] == s.skip(1)[j - 1]);
    }
}

pub open spec fn space_pred() -> spec_fn(char) -> bool {
    |c: char| is_space_char(c)
}

pub open spec fn alnum_pred() -> spec_fn(char) -> bool {
    |c: char| is_alnum_char(c)
}

pub open spec fn sigil_pred() -> spec_fn(char) -> bool {
    |c: char| is_sigil_char(c)
}

/// A position failing `p` with every earlier one passing it is where the
/// leading run ends.
pub proof fn lemma_first_not_unique(s: Seq<char>, p: spec_fn(char) -> bool, i: int)
    requires
        0 <= i <= s.len(),
        i < s.len() ==> !p(s[i]),
        forall|j: int| 0 <= j < i ==> p(s[j]),
        i == s.len() ==> forall|j: int| 0 <= j < s.len() ==> p(s[j]),
    ensures
        first_not(s, p) == i,
{
    lemma_first_not(s, p);
}

/// What is left of `s` once leading white space goes, as `str::trim_start`
/// leaves it.
pub open spec fn trim_start_spec(s: Seq<char>) -> Seq<char> {
    s.skip(first_not(s, space_pred()))
}

/// What is left of `s` once trailing white space goes, as `str::trim_end`
/// leaves it.
pub open spec fn trim_end_spec(s: Seq<char>) -> Seq<char>
    decreases s.len(),
{
    if s.len() == 0 {
        s
    } else if is_space_char(s.last()) {
        trim_end_spec(s.drop_last())
    } else {
        s
    }
}

pub proof fn lemma_trim_end_take(s: Seq<char>)
    ensures
        trim_end_spec(s) == s.take(trim_end_spec(s).len() as int),
        trim_end_spec(s).len() <= s.len(),
        forall|j: int| trim_end_spec(s).len() <= j < s.len() ==> is_space_char(#[trigger] s[j]),
        trim_end_spec(s).len() > 0 ==> !is_space_char(s[trim_end_spec(s).len() - 1]),
    decreases s.len(),
{
    if s.len() > 0 && is_space_char(s.last()) {
        lemma_trim_end_take(s.drop_last());
        assert(s.drop_last() =~= s.take(s.len() - 1));
        assert(forall|j: int| 0 <= j < s.len() - 1 ==> #[trigger] s[j] == s.drop_last()[j]);
        assert(s.take(s.len() - 1).take(trim_end_spec(s).len() as int) =~= s.take(
            trim_end_spec(s).len() as int,
        ));
    } else if s.len() > 0 {
        assert(trim_end_spec(s) =~= s.take(s.len() as int));
    } else {
        assert(trim_end_spec(s) =~= s.take(0));
    }
}

proof fn lemma_spec_digits_first(n: int)
    requires
        0 <= n,
    ensures
        is_digit_char(spec_digits(n)[0]),
        spec_digits(n).len() > 0,
    decreases n,
{
    if n >= 10 {
        lemma_spec_digits_first(n / 10);
    }
}

/// A trailing carriage return goes with the line break, as `str::lines` has
/// it.
pub open spec fn strip_cr(s: Seq<char>) -> Seq<char> {
    if s.len() > 0 && s.last() == '\r' {
        s.drop_last()
    } else {
        s
    }
}

/// The physical lines of `s`, as `str::lines` hands them out.
pub open spec fn split_lines_plain(s: Seq<char>) -> Seq<Seq<char>>
    decreases s.len(),
{
    if s.len() == 0 {
        Seq::empty()
    } else {
        let ix = first_ix(s, '\n');
        if 0 <= ix && ix < s.len() {
            seq![strip_cr(s.take(ix))] + split_lines_plain(s.skip(ix + 1))
        } else {
            seq![strip_cr(s)]
        }
    }
}

} // verus!
