//! Filter expressions: the `[start][:[end]]` grammar, its parser, and the
//! `FilterSet` that evaluates the union of all parsed filters against a
//! 1-based position.

use vstd::prelude::*;

use crate::num::{
    all_digits, dec_digits, dec_string, digits_val, is_u32_literal, parse_u32, NumError,
};

verus! {

/// A single filter: one 1-based position, or one inclusive range of
/// positions, to retain.
///
/// `end` has three states:
/// - `None`: the filter matches exactly the position `start`;
/// - `Some(0)`: open-ended, the filter matches every position from `start`
///   on (`0` is a sentinel, not a real position);
/// - `Some(e)` with `e > 0`: the filter matches the closed range
///   `[start, e]`.
#[derive(Debug, Clone, Copy, PartialEq, Eq, Structural)]
pub struct Filter {
    pub start: u32,
    pub end: Option<u32>,
}

/// Whether a single filter retains the 1-based position `pos`.
pub open spec fn filter_matches(f: Filter, pos: int) -> bool {
    match f.end {
        None => pos == f.start,
        Some(e) => f.start <= pos && (e == 0 || pos <= e),
    }
}

/// Why a filter expression failed to parse.
#[derive(Debug)]
pub enum ParseError {
    /// A start or end token is not a valid non-negative `u32` literal.
    ParseIntFailed(NumError),
    /// The bounds parsed, but do not name a usable range: the start is
    /// zero (positions are 1-based), or the end lies strictly before the
    /// start.
    InvalidFilter { reason: String },
}

impl ParseError {
    /// A human-readable description, as it is printed to the error stream.
    pub fn message(&self) -> (r: String)
        ensures
            self matches ParseError::ParseIntFailed(kind) ==> r@ == "failed to parse filter: "@
                + crate::num::spec_num_error_text(*kind),
            self matches ParseError::InvalidFilter { reason } ==> r@ == "invalid filter: "@
                + reason@,
    {
        match self {
            ParseError::ParseIntFailed(kind) => String::from_str(
                "failed to parse filter: ",
            ).concat(kind.text()),
            ParseError::InvalidFilter { reason } => String::from_str("invalid filter: ").concat(
                reason.as_str(),
            ),
        }
    }
}

/// Index of the first occurrence of `c` in `s`, or `s.len()` if `c` does
/// not occur.
pub open spec fn first_index_of(s: Seq<char>, c: char) -> int
    decreases s.len(),
{
    if s.len() == 0 {
        0
    } else if s[0] == c {
        0
    } else {
        1 + first_index_of(s.skip(1), c)
    }
}

proof fn lemma_first_index_of_is_first(s: Seq<char>, c: char)
    ensures
        0 <= first_index_of(s, c) <= s.len(),
        forall|k: int| 0 <= k < first_index_of(s, c) ==> s[k] != c,
        first_index_of(s, c) < s.len() ==> s[first_index_of(s, c)] == c,
    decreases s.len(),
{
    if s.len() > 0 && s[0] != c {
        lemma_first_index_of_is_first(s.skip(1), c);
        assert forall|k: int| 0 <= k < first_index_of(s, c) implies s[k] != c by {
            if k > 0 {
                assert(s[k] == s.skip(1)[k - 1]);
            }
        }
    }
}

proof fn lemma_first_index_of_unique(s: Seq<char>, c: char, idx: int)
    requires
        0 <= idx <= s.len(),
        forall|k: int| 0 <= k < idx ==> s[k] != c,
        idx < s.len() ==> s[idx] == c,
    ensures
        idx == first_index_of(s, c),
{
    lemma_first_index_of_is_first(s, c);
}

/// The text before the first colon of `s` (all of `s` if there is none).
pub open spec fn spec_left(s: Seq<char>) -> Seq<char> {
    s.take(first_index_of(s, ':'))
}

/// The text between the first colon of `s` and the second one or the end
/// of `s`, or `None` if `s` has no colon. Anything after a second colon
/// does not take part in parsing.
pub open spec fn spec_right(s: Seq<char>) -> Option<Seq<char>> {
    let i = first_index_of(s, ':');
    if i == s.len() {
        None
    } else {
        let rest = s.skip(i + 1);
        Some(rest.take(first_index_of(rest, ':')))
    }
}

/// Whether the start token is acceptable: absent (defaulting to 1) or a
/// valid `u32` literal.
pub open spec fn start_ok(left: Seq<char>) -> bool {
    left.len() == 0 || is_u32_literal(left)
}

/// The start position a filter expression denotes: 1 when the start token
/// is absent, else the token's value.
pub open spec fn spec_start_of(left: Seq<char>) -> int {
    if left.len() == 0 {
        1
    } else {
        digits_val(left)
    }
}

/// Whether the whole expression parses: the start token parses and
/// denotes a position (so not zero, positions being 1-based), and the
/// end token, where present and nonempty, parses to a value at or past
/// the start.
pub open spec fn spec_parse_ok(s: Seq<char>) -> bool {
    start_ok(spec_left(s)) && spec_start_of(spec_left(s)) >= 1 && match spec_right(s) {
        None => true,
        Some(t) => t.len() == 0 || (is_u32_literal(t) && digits_val(t)
            >= spec_start_of(spec_left(s))),
    }
}

/// The filter a valid expression denotes.
pub open spec fn spec_parse(s: Seq<char>) -> Filter {
    Filter {
        start: spec_start_of(spec_left(s)) as u32,
        end: match spec_right(s) {
            None => None,
            Some(t) => if t.len() == 0 {
                Some(0u32)
            } else {
                Some(digits_val(t) as u32)
            },
        },
    }
}

/// Whether parsing fails on an integer token: the start token is present
/// and invalid, or the start denotes a position and a nonempty end token
/// is invalid. (A zero start is rejected before the end token is read.)
pub open spec fn spec_int_err(s: Seq<char>) -> bool {
    !start_ok(spec_left(s)) || (spec_start_of(spec_left(s)) >= 1 && match spec_right(s) {
        None => false,
        Some(t) => t.len() > 0 && !is_u32_literal(t),
    })
}

/// Whether the start token parses but its value is zero: position 0 is
/// invalid as a user-facing index, so such an expression is rejected.
pub open spec fn spec_zero_err(s: Seq<char>) -> bool {
    start_ok(spec_left(s)) && spec_left(s).len() > 0 && digits_val(spec_left(s)) == 0
}

/// The error payload when an integer token fails: the reason the start
/// token failed, or else the reason the end token failed.
pub open spec fn spec_int_err_kind(s: Seq<char>) -> NumError {
    if !start_ok(spec_left(s)) {
        spec_num_err(spec_left(s))
    } else {
        spec_num_err(spec_right(s)->Some_0)
    }
}

/// The reason a token is not a valid `u32` literal.
pub open spec fn spec_num_err(t: Seq<char>) -> NumError {
    if t.len() == 0 {
        NumError::Empty
    } else if !all_digits(t) {
        NumError::BadDigit
    } else {
        NumError::TooLarge
    }
}

/// Whether both bounds parse, the start denotes a position, but the
/// range is inverted.
pub open spec fn spec_range_err(s: Seq<char>) -> bool {
    start_ok(spec_left(s)) && spec_start_of(spec_left(s)) >= 1 && match spec_right(s) {
        None => false,
        Some(t) => t.len() > 0 && is_u32_literal(t) && digits_val(t) < spec_start_of(
            spec_left(s),
        ),
    }
}

/// The reported reason for an inverted range.
pub open spec fn spec_range_reason(s: Seq<char>) -> Seq<char> {
    "end ["@ + dec_digits(digits_val(spec_right(s)->Some_0)) + "] cannot be before start ["@
        + dec_digits(spec_start_of(spec_left(s))) + "]"@
}

/// Index of the first colon of `s` at or after `from`, or `s@.len()` if
/// there is none.
fn find_colon(s: &str, from: usize) -> (idx: usize)
    requires
        from <= s@.len(),
    ensures
        from <= idx <= s@.len(),
        forall|k: int| from <= k < idx ==> s@[k] != ':',
        idx < s@.len() ==> s@[idx as int] == ':',
{
    let n = s.unicode_len();
    let mut i: usize = from;
    while i < n
        invariant
            n == s@.len(),
            from <= i <= n,
            forall|k: int| from <= k < i ==> s@[k] != ':',
        decreases n - i,
    {
        if s.get_char(i) == ':' {
            return i;
        }
        i += 1;
    }
    i
}

impl Filter {
    /// The construction invariant: the start is a real position (1-based,
    /// so never zero), and a present nonzero end never lies before it.
    pub open spec fn wf(self) -> bool {
        self.start >= 1 && match self.end {
            None => true,
            Some(e) => e == 0 || e >= self.start,
        }
    }

    /// Parses one filter expression.
    ///
    /// The grammar is `[start][":"[end]]`: an absent start defaults to 1,
    /// an absent end after a colon is the open-ended sentinel `Some(0)`,
    /// no colon at all leaves the filter exact. Both tokens must be
    /// non-negative `u32` literals (so no sign is accepted); the start
    /// must denote a real position, so a zero start is rejected; and a
    /// present nonzero end must not lie before the start. Text after a
    /// second colon is ignored.
    pub fn from_str(s: &str) -> (r: Result<Filter, ParseError>)
        ensures
            r is Ok <==> spec_parse_ok(s@),
            r matches Ok(f) ==> f == spec_parse(s@) && f.wf(),
            (r matches Err(e) && e is ParseIntFailed) <==> spec_int_err(s@),
            spec_int_err(s@) ==> (r matches Err(e) && e == ParseError::ParseIntFailed(
                spec_int_err_kind(s@),
            )),
            (r matches Err(e) && e is InvalidFilter) <==> spec_zero_err(s@) || spec_range_err(
                s@,
            ),
            spec_zero_err(s@) ==> (r matches Err(e) && e matches ParseError::InvalidFilter {
                reason,
            } && reason@ == "start [0] cannot be zero"@),
            spec_range_err(s@) ==> (r matches Err(e) && e matches ParseError::InvalidFilter {
                reason,
            } && reason@ == spec_range_reason(s@)),
    {
        let n = s.unicode_len();
        let c1 = find_colon(s, 0);
        proof {
            lemma_first_index_of_unique(s@, ':', c1 as int);
        }
        let left = s.substring_char(0, c1);
        proof {
            assert(left@ =~= spec_left(s@));
        }
        let start: u32 = if left.is_empty() {
            1
        } else {
            match parse_u32(left) {
                Ok(v) => v,
                Err(e) => {
                    return Err(ParseError::ParseIntFailed(e));
                },
            }
        };
        if start == 0 {
            return Err(
                ParseError::InvalidFilter { reason: String::from_str("start [0] cannot be zero") },
            );
        }

        let end: Option<u32> = if c1 == n {
            None
        } else {
            let c2 = find_colon(s, c1 + 1);
            proof {
                let rest = s@.skip(c1 + 1);
                assert forall|k: int| 0 <= k < c2 - (c1 + 1) implies rest[k] != ':' by {
                    assert(rest[k] == s@[k + c1 + 1]);
                }
                lemma_first_index_of_unique(rest, ':', c2 - (c1 + 1));
            }
            let right = s.substring_char(c1 + 1, c2);
            proof {
                assert(right@ =~= spec_right(s@)->Some_0);
            }
            if right.is_empty() {
                Some(0)
            } else {
                match parse_u32(right) {
                    Ok(v) => {
                        if v < start {
                            let reason = String::from_str("end [").concat(
                                dec_string(v).as_str(),
                            ).concat("] cannot be before start [").concat(
                                dec_string(start).as_str(),
                            ).concat("]");
                            proof {
                                assert(reason@ =~= spec_range_reason(s@));
                            }
                            return Err(ParseError::InvalidFilter { reason });
                        }
                        Some(v)
                    },
                    Err(e) => {
                        return Err(ParseError::ParseIntFailed(e));
                    },
                }
            }
        };

        Ok(Filter { start, end })
    }
}

/// How an expression of the shape `a ":" b`, with no colon inside either
/// token, splits: `a` is the start token and `b` the end token.
pub proof fn lemma_split_shape(a: Seq<char>, b: Seq<char>)
    requires
        forall|k: int| 0 <= k < a.len() ==> a[k] != ':',
        forall|k: int| 0 <= k < b.len() ==> b[k] != ':',
    ensures
        spec_left(a + seq![':'] + b) == a,
        spec_right(a + seq![':'] + b) == Some(b),
{
    let s = a + seq![':'] + b;
    assert forall|k: int| 0 <= k < a.len() implies s[k] != ':' by {
        assert(s[k] == a[k]);
    }
    assert(s[a.len() as int] == ':');
    lemma_first_index_of_unique(s, ':', a.len() as int);
    assert(s.take(a.len() as int) =~= a);
    let rest = s.skip(a.len() as int + 1);
    assert forall|k: int| 0 <= k < rest.len() implies rest[k] == b[k] by {
        assert(rest[k] == s[k + a.len() + 1]);
    }
    assert(rest =~= b);
    lemma_first_index_of_unique(b, ':', b.len() as int);
    assert(b.take(b.len() as int) =~= b);
}

/// An expression without any colon is one start token.
pub proof fn lemma_whole_shape(s: Seq<char>)
    requires
        forall|k: int| 0 <= k < s.len() ==> s[k] != ':',
    ensures
        spec_left(s) == s,
        spec_right(s) == None::<Seq<char>>,
{
    lemma_first_index_of_unique(s, ':', s.len() as int);
    assert(s.take(s.len() as int) =~= s);
}

/// Every valid number parses as an exact filter: for an all-digit text
/// `s` whose value is a position (at least 1) and fits in `u32`, parsing
/// yields that value as `start` and no `end` at all.
pub proof fn lemma_parse_exact(s: Seq<char>)
    requires
        is_u32_literal(s),
        digits_val(s) >= 1,
    ensures
        spec_parse_ok(s),
        spec_parse(s) == (Filter { start: digits_val(s) as u32, end: None }),
{
    assert forall|k: int| 0 <= k < s.len() implies s[k] != ':' by {
        assert(crate::num::is_digit(s[k]));
    }
    lemma_whole_shape(s);
}

/// What every two-sided expression `a ":" b` with well-formed tokens
/// yields: an empty end token gives the open-ended sentinel; an end at
/// or past the start gives the closed range; an end before the start is
/// rejected as an invalid range. An empty start token stands for 1.
pub proof fn lemma_parse_range(a: Seq<char>, b: Seq<char>)
    requires
        a.len() == 0 || (is_u32_literal(a) && digits_val(a) >= 1),
        b.len() == 0 || is_u32_literal(b),
    ensures
        ({
            let s = a + seq![':'] + b;
            &&& b.len() == 0 ==> spec_parse_ok(s) && spec_parse(s) == (Filter {
                start: spec_start_of(a) as u32,
                end: Some(0u32),
            })
            &&& b.len() > 0 && digits_val(b) >= spec_start_of(a) ==> spec_parse_ok(s)
                && spec_parse(s) == (Filter {
                start: spec_start_of(a) as u32,
                end: Some(digits_val(b) as u32),
            })
            &&& b.len() > 0 && digits_val(b) < spec_start_of(a) ==> !spec_parse_ok(s)
                && spec_range_err(s)
        }),
{
    assert forall|k: int| 0 <= k < a.len() implies a[k] != ':' by {
        assert(crate::num::is_digit(a[k]));
    }
    assert forall|k: int| 0 <= k < b.len() implies b[k] != ':' by {
        assert(crate::num::is_digit(b[k]));
    }
    lemma_split_shape(a, b);
}

/// A start token that is not a valid number (a signed or otherwise
/// non-numeric text, since a sign is never a digit) is rejected with an
/// integer-parse error when it stands alone.
pub proof fn lemma_parse_rejects_bad_number(s: Seq<char>)
    requires
        s.len() > 0,
        !is_u32_literal(s),
        forall|k: int| 0 <= k < s.len() ==> s[k] != ':',
    ensures
        !spec_parse_ok(s),
        spec_int_err(s),
{
    lemma_whole_shape(s);
}

/// In a two-sided expression, a start token that is not a valid number,
/// or a start that denotes a position beside a nonempty end token that
/// is not a valid number, is rejected with an integer-parse error.
pub proof fn lemma_parse_rejects_bad_token(a: Seq<char>, b: Seq<char>)
    requires
        forall|k: int| 0 <= k < a.len() ==> a[k] != ':',
        forall|k: int| 0 <= k < b.len() ==> b[k] != ':',
        (a.len() > 0 && !is_u32_literal(a)) || (start_ok(a) && spec_start_of(a) >= 1 && b.len()
            > 0 && !is_u32_literal(b)),
    ensures
        !spec_parse_ok(a + seq![':'] + b),
        spec_int_err(a + seq![':'] + b),
{
    lemma_split_shape(a, b);
}

/// A start token whose value is zero is rejected outright: position 0
/// does not exist, indexing being 1-based.
pub proof fn lemma_parse_rejects_zero_number(s: Seq<char>)
    requires
        is_u32_literal(s),
        digits_val(s) == 0,
    ensures
        !spec_parse_ok(s),
        spec_zero_err(s),
{
    assert forall|k: int| 0 <= k < s.len() implies s[k] != ':' by {
        assert(crate::num::is_digit(s[k]));
    }
    lemma_whole_shape(s);
}

/// A zero start token is rejected in a two-sided expression too,
/// whatever stands after the colon.
pub proof fn lemma_parse_rejects_zero_start(a: Seq<char>, b: Seq<char>)
    requires
        is_u32_literal(a),
        digits_val(a) == 0,
        forall|k: int| 0 <= k < b.len() ==> b[k] != ':',
    ensures
        !spec_parse_ok(a + seq![':'] + b),
        spec_zero_err(a + seq![':'] + b),
{
    assert forall|k: int| 0 <= k < a.len() implies a[k] != ':' by {
        assert(crate::num::is_digit(a[k]));
    }
    lemma_split_shape(a, b);
}

/// Whether some filter of `filters` retains the 1-based position `pos`.
pub open spec fn set_matches(filters: Seq<Filter>, pos: int) -> bool {
    exists|i: int| 0 <= i < filters.len() && filter_matches(filters[i], pos)
}

/// The union of all filters supplied for one run, kept in the order they
/// were given.
pub struct FilterSet(Vec<Filter>);

impl View for FilterSet {
    type V = Seq<Filter>;

    closed spec fn view(&self) -> Seq<Filter> {
        self.0@
    }
}

impl FilterSet {
    /// Takes ownership of the parsed filters; no further validation.
    pub fn new(filters: Vec<Filter>) -> (r: FilterSet)
        ensures
            r@ == filters@,
    {
        FilterSet(filters)
    }

    /// Whether the 1-based position `index` is covered by the union of the
    /// filters. An empty set covers nothing; callers that mean "no
    /// filtering requested" must test `is_empty` first and retain
    /// everything.
    pub fn apply(&self, index: u32) -> (r: bool)
        ensures
            r == set_matches(self@, index as int),
    {
        let n = self.0.len();
        let mut i: usize = 0;
        while i < n
            invariant
                n == self.0.len(),
                i <= n,
                forall|k: int| 0 <= k < i ==> !filter_matches(self.0@[k], index as int),
            decreases n - i,
        {
            let f = self.0[i];
            if index >= f.start {
                let hit = match f.end {
                    Some(e) => e == 0 || index <= e,
                    None => index == f.start,
                };
                if hit {
                    assert(filter_matches(self.0@[i as int], index as int));
                    return true;
                }
            }
            i += 1;
        }
        false
    }

    /// Whether the set holds no filter at all.
    pub fn is_empty(&self) -> (r: bool)
        ensures
            r == (self@.len() == 0),
    {
        self.0.len() == 0
    }
}

/// Membership in a set of filters is a pure union: a position is covered
/// by the concatenation of two filter lists exactly when it is covered by
/// one of them.
pub proof fn lemma_set_matches_union(a: Seq<Filter>, b: Seq<Filter>, pos: int)
    ensures
        set_matches(a + b, pos) == (set_matches(a, pos) || set_matches(b, pos)),
{
    if set_matches(a + b, pos) {
        let i = choose|i: int| 0 <= i < (a + b).len() && filter_matches((a + b)[i], pos);
        if i < a.len() {
            assert(filter_matches(a[i], pos));
        } else {
            assert(filter_matches(b[i - a.len()], pos));
        }
    }
    if set_matches(a, pos) {
        let i = choose|i: int| 0 <= i < a.len() && filter_matches(a[i], pos);
        assert(filter_matches((a + b)[i], pos));
    }
    if set_matches(b, pos) {
        let i = choose|i: int| 0 <= i < b.len() && filter_matches(b[i], pos);
        assert(filter_matches((a + b)[i + a.len()], pos));
    }
}

/// The two-filter reading of the union law: a position is covered by the
/// set of `a` and `b` exactly when it is covered by the set of `a` alone
/// or by the set of `b` alone.
pub proof fn lemma_apply_is_union(a: Filter, b: Filter, pos: int)
    ensures
        set_matches(seq![a, b], pos) == (set_matches(seq![a], pos) || set_matches(
            seq![b],
            pos,
        )),
{
    assert(seq![a, b] =~= seq![a] + seq![b]);
    lemma_set_matches_union(seq![a], seq![b], pos);
}

/// A set of zero filters covers no position at all: "retain everything"
/// on an empty set is the caller's convention, not `apply`'s result.
pub proof fn lemma_empty_set_matches_nothing(filters: Seq<Filter>, pos: int)
    requires
        filters.len() == 0,
    ensures
        !set_matches(filters, pos),
{
}

} // verus!
