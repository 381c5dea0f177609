//! Query specifications as they are written on a command line.
//!
//! A specification is written `<n>x<m>`, for `n` queries of `m` triples
//! each, or `<n>x<p>%`, for `n` queries of `p` percent of the triples of a
//! dataset each. The numbers `n` and `m` are written in decimal digits, and
//! a plus sign may stand before them. The percentage `p` is written in
//! decimal digits, among which a point may stand once. It is kept as it is
//! written: what number it stands for is left to the caller.

use crate::error::Error;
use crate::ntriples::chars_of;
use vstd::prelude::*;
use vstd::string::StrSliceExecFns;

verus! {

/// The size of the queries of a specification.
#[derive(Debug)]
pub enum QuerySizeOpt {
    /// A percentage of the triples of a dataset: the decimal number that is
    /// written before the percent sign.
    Percentage(String),
    /// A number of triples.
    Absolute(usize),
}

/// A query specification as it is written.
#[derive(Debug)]
pub struct QuerySpecOpt {
    pub n_queries: usize,
    pub n_triples_per_query: QuerySizeOpt,
}

/// The size of the queries of a specification, in specifications.
pub enum QuerySizeView {
    Percentage(Seq<char>),
    Absolute(usize),
}

/// A query specification in specifications.
pub struct QuerySpecView {
    pub n_queries: usize,
    pub n_triples_per_query: QuerySizeView,
}

impl View for QuerySizeOpt {
    type V = QuerySizeView;

    open spec fn view(&self) -> QuerySizeView {
        match self {
            QuerySizeOpt::Percentage(text) => QuerySizeView::Percentage(text@),
            QuerySizeOpt::Absolute(n) => QuerySizeView::Absolute(*n),
        }
    }
}

impl View for QuerySpecOpt {
    type V = QuerySpecView;

    open spec fn view(&self) -> QuerySpecView {
        QuerySpecView {
            n_queries: self.n_queries,
            n_triples_per_query: self.n_triples_per_query@,
        }
    }
}

/// Whether a character is a decimal digit.
pub open spec fn is_digit(c: char) -> bool {
    48 <= c as int && c as int <= 57
}

/// Whether a text consists of decimal digits.
pub open spec fn all_digits(text: Seq<char>) -> bool {
    forall|i: int| 0 <= i < text.len() ==> is_digit(#[trigger] text[i])
}

/// The number that decimal digits stand for.
pub open spec fn digits_value(text: Seq<char>) -> int
    decreases text.len(),
{
    if text.len() == 0 {
        0
    } else {
        10 * digits_value(text.drop_last()) + (text.last() as int - 48)
    }
}

/// A text without the plus sign that may stand at its beginning.
pub open spec fn unsigned_part(text: Seq<char>) -> Seq<char> {
    if text.len() > 0 && text[0] == '+' {
        text.skip(1)
    } else {
        text
    }
}

/// The number that a text stands for: the text must be one decimal digit or
/// more, a plus sign may stand before them, and the number must fit the
/// machine.
pub open spec fn number_of(text: Seq<char>) -> Option<usize> {
    let digits = unsigned_part(text);
    if digits.len() > 0 && all_digits(digits) && digits_value(digits) <= usize::MAX {
        Some(digits_value(digits) as usize)
    } else {
        None
    }
}

/// The position of the first `x` at or behind position `from`, or the
/// length of the text if there is none.
pub open spec fn first_x(text: Seq<char>, from: int) -> int
    decreases text.len() - from,
{
    if from >= text.len() {
        text.len() as int
    } else if text[from] == 'x' {
        from
    } else {
        first_x(text, from + 1)
    }
}

/// Whether a text is a decimal number: it consists of decimal digits, among
/// which a point may stand once, and it has one digit at least.
pub open spec fn is_decimal(text: Seq<char>) -> bool {
    &&& forall|i: int| 0 <= i < text.len() ==> is_digit(#[trigger] text[i]) || text[i] == '.'
    &&& forall|i: int, j: int|
        0 <= i < j < text.len() ==> !(#[trigger] text[i] == '.' && #[trigger] text[j] == '.')
    &&& exists|i: int| 0 <= i < text.len() && is_digit(#[trigger] text[i])
}

/// The specification that a text stands for, if it stands for one. The
/// first `x` parts the number of queries from their size. A size that ends
/// with a percent sign is a percentage, and what stands before the sign must
/// be a decimal number; any other size must be a number.
pub open spec fn query_spec_of(text: Seq<char>) -> Option<QuerySpecView> {
    let i = first_x(text, 0);
    if i >= text.len() {
        None
    } else {
        let size = text.subrange(i + 1, text.len() as int);
        match number_of(text.subrange(0, i)) {
            None => None,
            Some(n_queries) => if size.len() > 0 && size.last() == '%' {
                if is_decimal(size.drop_last()) {
                    Some(
                        QuerySpecView {
                            n_queries,
                            n_triples_per_query: QuerySizeView::Percentage(size.drop_last()),
                        },
                    )
                } else {
                    None
                }
            } else {
                match number_of(size) {
                    None => None,
                    Some(n) => Some(
                        QuerySpecView {
                            n_queries,
                            n_triples_per_query: QuerySizeView::Absolute(n),
                        },
                    ),
                }
            },
        }
    }
}

/// What digits stand for is not negative, and grows with every digit that
/// is written behind them.
pub proof fn lemma_digits_grow(text: Seq<char>, i: int)
    requires
        all_digits(text),
        0 <= i <= text.len(),
    ensures
        0 <= digits_value(text.take(i)) <= digits_value(text),
    decreases text.len() - i,
{
    if i == text.len() {
        assert(text.take(i) =~= text);
        lemma_digits_nonnegative(text);
    } else {
        lemma_digits_grow(text, i + 1);
        assert(text.take(i + 1).drop_last() =~= text.take(i));
        lemma_digits_nonnegative(text.take(i));
    }
}

/// What digits stand for is not negative.
pub proof fn lemma_digits_nonnegative(text: Seq<char>)
    requires
        all_digits(text),
    ensures
        0 <= digits_value(text),
    decreases text.len(),
{
    if text.len() > 0 {
        lemma_digits_nonnegative(text.drop_last());
    }
}

/// The number that a decimal digit stands for.
pub fn digit_of(c: char) -> (d: Option<usize>)
    ensures
        is_digit(c) ==> d == Some((c as int - 48) as usize),
        !is_digit(c) ==> d is None,
{
    match c {
        '0' => Some(0),
        '1' => Some(1),
        '2' => Some(2),
        '3' => Some(3),
        '4' => Some(4),
        '5' => Some(5),
        '6' => Some(6),
        '7' => Some(7),
        '8' => Some(8),
        '9' => Some(9),
        _ => None,
    }
}

/// Reads the number that the characters from `from` up to `to` stand for.
pub fn parse_number(chars: &Vec<char>, from: usize, to: usize) -> (r: Option<usize>)
    requires
        from <= to <= chars@.len(),
    ensures
        r == number_of(chars@.subrange(from as int, to as int)),
{
    let start = if from < to && chars[from] == '+' {
        from + 1
    } else {
        from
    };
    let ghost digits = chars@.subrange(start as int, to as int);
    if start == to {
        return None;
    }
    let mut value: usize = 0;
    let mut k: usize = start;
    while k < to
        invariant
            start <= k <= to <= chars@.len(),
            from <= to,
            digits == chars@.subrange(start as int, to as int),
            digits == unsigned_part(chars@.subrange(from as int, to as int)),
            digits.len() > 0,
            all_digits(digits.take(k - start)),
            value == digits_value(digits.take(k - start)),
        decreases to - k,
    {
        let c = chars[k];
        let digit = match digit_of(c) {
            Some(digit) => digit,
            None => {
                assert(!is_digit(digits[k - start]));
                return None;
            },
        };
        proof {
            let upto = digits.take(k - start + 1);
            assert(upto.drop_last() =~= digits.take(k - start));
            if all_digits(digits) {
                lemma_digits_grow(digits, k - start + 1);
            }
        }
        let tenfold = match value.checked_mul(10) {
            Some(t) => t,
            None => {
                return None;
            },
        };
        value = match tenfold.checked_add(digit) {
            Some(v) => v,
            None => {
                return None;
            },
        };
        k += 1;
    }
    assert(digits.take(to - start) =~= digits);
    Some(value)
}

/// Whether the characters from `from` up to `to` are a decimal number.
pub fn is_decimal_number(chars: &Vec<char>, from: usize, to: usize) -> (r: bool)
    requires
        from <= to <= chars@.len(),
    ensures
        r == is_decimal(chars@.subrange(from as int, to as int)),
{
    let ghost text = chars@.subrange(from as int, to as int);
    let mut seen_point = false;
    let mut seen_digit = false;
    let ghost mut point: int = -1;
    let ghost mut digit: int = -1;
    let mut k: usize = from;
    while k < to
        invariant
            from <= k <= to <= chars@.len(),
            text == chars@.subrange(from as int, to as int),
            forall|i: int| 0 <= i < k - from ==> is_digit(#[trigger] text[i]) || text[i] == '.',
            forall|i: int| 0 <= i < k - from && #[trigger] text[i] == '.' ==> i == point,
            seen_point ==> 0 <= point < k - from && text[point] == '.',
            !seen_point ==> point == -1,
            seen_digit ==> 0 <= digit < k - from && is_digit(text[digit]),
            !seen_digit ==> forall|i: int| 0 <= i < k - from ==> !is_digit(#[trigger] text[i]),
        decreases to - k,
    {
        let c = chars[k];
        assert(text[k - from] == c);
        if c == '.' {
            if seen_point {
                assert(text[point] == '.' && text[k - from] == '.');
                return false;
            }
            seen_point = true;
            proof {
                point = k - from;
            }
        } else {
            match digit_of(c) {
                Some(_) => {
                    seen_digit = true;
                    proof {
                        digit = k - from;
                    }
                },
                None => {
                    assert(!(is_digit(text[k - from]) || text[k - from] == '.'));
                    return false;
                },
            }
        }
        k += 1;
    }
    proof {
        if seen_digit {
            assert(is_digit(text[digit]));
        }
    }
    seen_digit
}

impl std::str::FromStr for QuerySpecOpt {
    type Err = Error;

    /// Reads a query specification, as [`QuerySpecOpt::from_str`] does.
    fn from_str(s: &str) -> (r: Result<QuerySpecOpt, Error>)
        ensures
            query_spec_of(s@) is Some ==> r is Ok && r->Ok_0@ == query_spec_of(s@)->Some_0,
            query_spec_of(s@) is None ==> r == Err::<QuerySpecOpt, Error>(Error::BadSpec),
    {
        QuerySpecOpt::from_str(s)
    }
}

impl QuerySpecOpt {
    /// Reads a query specification. A text that stands for none is a bad
    /// specification.
    pub fn from_str(s: &str) -> (r: Result<QuerySpecOpt, Error>)
        ensures
            query_spec_of(s@) is Some ==> r is Ok && r->Ok_0@ == query_spec_of(s@)->Some_0,
            query_spec_of(s@) is None ==> r == Err::<QuerySpecOpt, Error>(Error::BadSpec),
    {
        let chars = chars_of(s);
        let n = chars.len();
        let mut i: usize = 0;
        while i < n && chars[i] != 'x'
            invariant
                n == chars@.len(),
                i <= n,
                first_x(chars@, 0) == first_x(chars@, i as int),
            decreases n - i,
        {
            i += 1;
        }
        if i >= n {
            return Err(Error::BadSpec);
        }
        let n_queries = match parse_number(&chars, 0, i) {
            Some(n_queries) => n_queries,
            None => {
                return Err(Error::BadSpec);
            },
        };
        let ghost size = chars@.subrange(i + 1, n as int);
        if n - (i + 1) > 0 && chars[n - 1] == '%' {
            assert(size.drop_last() =~= chars@.subrange(i + 1, n - 1));
            if !is_decimal_number(&chars, i + 1, n - 1) {
                return Err(Error::BadSpec);
            }
            let written = s.substring_char(i + 1, n - 1);
            Ok(
                QuerySpecOpt {
                    n_queries,
                    n_triples_per_query: QuerySizeOpt::Percentage(written.to_owned()),
                },
            )
        } else {
            match parse_number(&chars, i + 1, n) {
                Some(size) => Ok(
                    QuerySpecOpt { n_queries, n_triples_per_query: QuerySizeOpt::Absolute(size) },
                ),
                None => Err(Error::BadSpec),
            }
        }
    }
}

} // verus!
