//! Row and column slicing: which lines of an input, or which
//! whitespace-delimited tokens of each line, the supplied `FilterSet`
//! retains, and what is emitted for them.

use vstd::prelude::*;

use crate::filter::{set_matches, Filter, FilterSet};

verus! {

/// Whether `c` is whitespace: one of the Unicode `White_Space`
/// characters, the same set that delimits tokens in column mode.
pub open spec fn is_space(c: char) -> bool {
    c as u32 == 0x20 || (0x09 <= c as u32 && c as u32 <= 0x0D) || c as u32 == 0x85 || c as u32
        == 0xA0 || c as u32 == 0x1680 || (0x2000 <= c as u32 && c as u32 <= 0x200A) || c as u32
        == 0x2028 || c as u32 == 0x2029 || c as u32 == 0x202F || c as u32 == 0x205F || c as u32
        == 0x3000
}

fn is_space_char(c: char) -> (r: bool)
    ensures
        r == is_space(c),
{
    let v = c as u32;
    v == 0x20 || (0x09 <= v && v <= 0x0D) || v == 0x85 || v == 0xA0 || v == 0x1680 || (0x2000 <= v
        && v <= 0x200A) || v == 0x2028 || v == 0x2029 || v == 0x202F || v == 0x205F || v == 0x3000
}

/// Length of the leading run of non-whitespace characters of `s`.
pub open spec fn token_len(s: Seq<char>) -> int
    decreases s.len(),
{
    if s.len() == 0 {
        0
    } else if is_space(s[0]) {
        0
    } else {
        1 + token_len(s.skip(1))
    }
}

proof fn lemma_token_len_bounds(s: Seq<char>)
    ensures
        0 <= token_len(s) <= s.len(),
        forall|k: int| 0 <= k < token_len(s) ==> !is_space(s[k]),
        token_len(s) < s.len() ==> is_space(s[token_len(s)]),
    decreases s.len(),
{
    if s.len() > 0 && !is_space(s[0]) {
        lemma_token_len_bounds(s.skip(1));
        assert forall|k: int| 0 <= k < token_len(s) implies !is_space(s[k]) by {
            if k > 0 {
                assert(s[k] == s.skip(1)[k - 1]);
            }
        }
    }
}

proof fn lemma_token_len_unique(s: Seq<char>, j: int)
    requires
        0 <= j <= s.len(),
        forall|k: int| 0 <= k < j ==> !is_space(s[k]),
        j < s.len() ==> is_space(s[j]),
    ensures
        j == token_len(s),
{
    lemma_token_len_bounds(s);
}

/// The whitespace-delimited tokens of `s`, in left-to-right order: the
/// maximal runs of non-whitespace characters. Whitespace itself is never
/// part of a token, and an all-whitespace or empty line has none.
pub open spec fn spec_tokens(s: Seq<char>) -> Seq<Seq<char>>
    decreases s.len(),
    via spec_tokens_decreases
{
    if s.len() == 0 {
        Seq::empty()
    } else if is_space(s[0]) {
        spec_tokens(s.skip(1))
    } else {
        seq![s.take(token_len(s))] + spec_tokens(s.skip(token_len(s)))
    }
}

#[via_fn]
proof fn spec_tokens_decreases(s: Seq<char>) {
    lemma_token_len_bounds(s);
}

/// A line has no more tokens than characters.
proof fn lemma_tokens_count_le(s: Seq<char>)
    ensures
        spec_tokens(s).len() <= s.len(),
    decreases s.len(),
{
    if s.len() > 0 {
        if is_space(s[0]) {
            lemma_tokens_count_le(s.skip(1));
        } else {
            lemma_token_len_bounds(s);
            lemma_tokens_count_le(s.skip(token_len(s)));
        }
    }
}

/// Splits `line` into its whitespace-delimited tokens.
pub fn tokenize(line: &str) -> (toks: Vec<String>)
    ensures
        toks.deep_view() == spec_tokens(line@),
        toks@.len() <= line@.len(),
{
    let n = line.unicode_len();
    let mut toks: Vec<String> = Vec::new();
    let mut i: usize = 0;
    proof {
        assert(line@.skip(0) =~= line@);
        assert(toks.deep_view() =~~= Seq::<Seq<char>>::empty());
        assert(toks.deep_view() + spec_tokens(line@) =~~= spec_tokens(line@));
    }
    while i < n
        invariant
            n == line@.len(),
            i <= n,
            toks.deep_view() + spec_tokens(line@.skip(i as int)) == spec_tokens(line@),
        decreases n - i,
    {
        let c = line.get_char(i);
        if is_space_char(c) {
            proof {
                let rest = line@.skip(i as int);
                assert(rest[0] == line@[i as int]);
                assert(rest.skip(1) =~= line@.skip(i + 1));
            }
            i += 1;
        } else {
            let mut j: usize = i + 1;
            loop
                invariant
                    n == line@.len(),
                    i < j <= n,
                    forall|k: int| i <= k < j ==> !is_space(line@[k]),
                ensures
                    i < j <= n,
                    forall|k: int| i <= k < j ==> !is_space(line@[k]),
                    j == n || is_space(line@[j as int]),
                decreases n - j,
            {
                if j == n {
                    break ;
                }
                if is_space_char(line.get_char(j)) {
                    break ;
                }
                j += 1;
            }
            let tok = line.substring_char(i, j).to_owned();
            proof {
                let rest = line@.skip(i as int);
                assert forall|k: int| 0 <= k < j - i implies !is_space(rest[k]) by {
                    assert(rest[k] == line@[k + i]);
                }
                if j - i < rest.len() {
                    assert(rest[j - i] == line@[j as int]);
                }
                lemma_token_len_unique(rest, j - i);
                assert(rest.take(j - i) =~= line@.subrange(i as int, j as int));
                assert(rest.skip(j - i) =~= line@.skip(j as int));
                assert(spec_tokens(rest) == seq![tok@] + spec_tokens(line@.skip(j as int)));
            }
            let ghost old_toks = toks.deep_view();
            toks.push(tok);
            proof {
                assert(toks.deep_view() =~~= old_toks.push(tok@));
                assert(toks.deep_view() + spec_tokens(line@.skip(j as int)) =~~= old_toks + (
                seq![tok@] + spec_tokens(line@.skip(j as int))));
            }
            i = j;
        }
    }
    proof {
        assert(line@.skip(n as int) =~= Seq::<char>::empty());
        assert(toks.deep_view() =~~= spec_tokens(line@));
        lemma_tokens_count_le(line@);
    }
    toks
}

/// Whether a 1-based position is retained under the caller convention
/// for rows: an empty filter set means "no filtering requested", so
/// everything is kept; otherwise the set must cover the position.
pub open spec fn row_kept(filters: Seq<Filter>, pos: int) -> bool {
    filters.len() == 0 || set_matches(filters, pos)
}

/// The lines retained by row slicing: those whose 1-based position is
/// kept, in their original order and verbatim.
pub open spec fn spec_slice_rows(filters: Seq<Filter>, lines: Seq<String>) -> Seq<String>
    decreases lines.len(),
{
    if lines.len() == 0 {
        Seq::empty()
    } else {
        let prefix = spec_slice_rows(filters, lines.drop_last());
        if row_kept(filters, lines.len() as int) {
            prefix.push(lines.last())
        } else {
            prefix
        }
    }
}

/// Applies a `FilterSet` to line positions: a line is emitted verbatim
/// exactly when the set is empty or covers the line's 1-based position.
pub struct RowSlicer {
    pub filters: FilterSet,
}

impl RowSlicer {
    /// Retains the lines whose 1-based position the filters keep, each
    /// exactly as it was read, terminator included.
    pub fn slice(&self, lines: &Vec<String>) -> (out: Vec<String>)
        requires
            lines@.len() <= u32::MAX,
        ensures
            out@ == spec_slice_rows(self.filters@, lines@),
    {
        let mut out: Vec<String> = Vec::new();
        let empty = self.filters.is_empty();
        let mut i: usize = 0;
        proof {
            assert(lines@.take(0) =~= Seq::<String>::empty());
        }
        while i < lines.len()
            invariant
                lines@.len() <= u32::MAX,
                i <= lines@.len(),
                empty == (self.filters@.len() == 0),
                out@ == spec_slice_rows(self.filters@, lines@.take(i as int)),
            decreases lines@.len() - i,
        {
            proof {
                assert((i + 1) as u32 == i + 1);
            }
            let keep = if empty {
                true
            } else {
                self.filters.apply((i + 1) as u32)
            };
            if keep {
                out.push(lines[i].clone());
            }
            proof {
                assert(lines@.take(i + 1).drop_last() =~= lines@.take(i as int));
                assert(lines@.take(i + 1).last() == lines@[i as int]);
            }
            i += 1;
        }
        proof {
            assert(lines@.take(lines@.len() as int) =~= lines@);
        }
        out
    }
}

/// The tokens whose 1-based position the filters cover, in order.
pub open spec fn spec_selected(filters: Seq<Filter>, ts: Seq<Seq<char>>) -> Seq<Seq<char>>
    decreases ts.len(),
{
    if ts.len() == 0 {
        Seq::empty()
    } else {
        let prefix = spec_selected(filters, ts.drop_last());
        if set_matches(filters, ts.len() as int) {
            prefix.push(ts.last())
        } else {
            prefix
        }
    }
}

/// The given pieces joined with a single space between neighbours.
pub open spec fn spec_join_spaces(ts: Seq<Seq<char>>) -> Seq<char>
    decreases ts.len(),
{
    if ts.len() == 0 {
        Seq::empty()
    } else if ts.len() == 1 {
        ts[0]
    } else {
        spec_join_spaces(ts.drop_last()) + seq![' '] + ts.last()
    }
}

/// What column slicing emits for one line when filtering is in force:
/// the covered tokens, rejoined with single spaces and terminated with
/// one newline. Inter-token spacing and the line ending are normalized
/// even when every token is kept.
pub open spec fn spec_slice_line(filters: Seq<Filter>, line: Seq<char>) -> Seq<char> {
    spec_join_spaces(spec_selected(filters, spec_tokens(line))).push('\n')
}

/// Applies a `FilterSet` to token positions within each line: with no
/// filters a line passes verbatim, otherwise the covered tokens are
/// emitted rejoined with single spaces.
pub struct ColSlicer {
    pub filters: FilterSet,
}

impl ColSlicer {
    /// Emits the tokens of `line` that the filters cover, joined with
    /// single spaces and terminated with a newline.
    pub fn slice_line(&self, line: &str) -> (out: String)
        requires
            line@.len() <= u32::MAX,
        ensures
            out@ == spec_slice_line(self.filters@, line@),
    {
        let toks = tokenize(line);
        let ghost ts = toks.deep_view();
        let mut out = String::new();
        let mut first = true;
        let mut i: usize = 0;
        proof {
            assert(ts.take(0) =~~= Seq::<Seq<char>>::empty());
        }
        while i < toks.len()
            invariant
                ts == toks.deep_view(),
                ts == spec_tokens(line@),
                toks@.len() == ts.len(),
                ts.len() <= line@.len() <= u32::MAX,
                i <= ts.len(),
                first == (spec_selected(self.filters@, ts.take(i as int)).len() == 0),
                out@ == spec_join_spaces(spec_selected(self.filters@, ts.take(i as int))),
            decreases ts.len() - i,
        {
            proof {
                assert((i + 1) as u32 == i + 1);
            }
            let ghost sel = spec_selected(self.filters@, ts.take(i as int));
            proof {
                assert(ts.take(i + 1).drop_last() =~~= ts.take(i as int));
                assert(ts.take(i + 1).last() == ts[i as int]);
            }
            if self.filters.apply((i + 1) as u32) {
                if !first {
                    out.append(" ");
                }
                out.append(toks[i].as_str());
                first = false;
                proof {
                    reveal_strlit(" ");
                    let sel2 = spec_selected(self.filters@, ts.take(i + 1));
                    assert(sel2 == sel.push(ts[i as int]));
                    assert(toks@[i as int]@ == ts[i as int]);
                    if sel.len() == 0 {
                        assert(out@ =~= spec_join_spaces(sel2));
                    } else {
                        assert(sel2.drop_last() =~~= sel);
                        assert(out@ =~= spec_join_spaces(sel2));
                    }
                }
            }
            i += 1;
        }
        proof {
            assert(ts.take(ts.len() as int) =~~= ts);
        }
        out.append("\n");
        proof {
            reveal_strlit("\n");
            assert(out@ =~= spec_slice_line(self.filters@, line@));
        }
        out
    }

    /// Processes a whole input: with no filters every line is emitted
    /// unchanged; otherwise each line is replaced by its covered tokens,
    /// space-joined and newline-terminated.
    pub fn slice(&self, lines: &Vec<String>) -> (out: Vec<String>)
        requires
            forall|k: int| 0 <= k < lines@.len() ==> lines@[k]@.len() <= u32::MAX,
        ensures
            self.filters@.len() == 0 ==> out@ == lines@,
            self.filters@.len() > 0 ==> out.deep_view() == lines@.map_values(
                |l: String| spec_slice_line(self.filters@, l@),
            ),
    {
        let mut out: Vec<String> = Vec::new();
        let mut i: usize = 0;
        if self.filters.is_empty() {
            proof {
                assert(lines@.take(0) =~= Seq::<String>::empty());
            }
            while i < lines.len()
                invariant
                    i <= lines@.len(),
                    out@ == lines@.take(i as int),
                decreases lines@.len() - i,
            {
                out.push(lines[i].clone());
                proof {
                    assert(lines@.take(i + 1) =~= lines@.take(i as int).push(lines@[i as int]));
                }
                i += 1;
            }
            proof {
                assert(lines@.take(lines@.len() as int) =~= lines@);
            }
        } else {
            let ghost f = |l: String| spec_slice_line(self.filters@, l@);
            proof {
                assert(out.deep_view() =~~= lines@.take(0).map_values(f));
            }
            while i < lines.len()
                invariant
                    forall|k: int| 0 <= k < lines@.len() ==> lines@[k]@.len() <= u32::MAX,
                    self.filters@.len() > 0,
                    i <= lines@.len(),
                    f == (|l: String| spec_slice_line(self.filters@, l@)),
                    out.deep_view() == lines@.take(i as int).map_values(f),
                decreases lines@.len() - i,
            {
                let ghost old_out = out.deep_view();
                let piece = self.slice_line(lines[i].as_str());
                out.push(piece);
                proof {
                    assert(out.deep_view() =~~= old_out.push(spec_slice_line(
                        self.filters@,
                        lines@[i as int]@,
                    )));
                    assert(lines@.take(i + 1).map_values(f) =~~= lines@.take(
                        i as int,
                    ).map_values(f).push(f(lines@[i as int])));
                }
                i += 1;
            }
            proof {
                assert(lines@.take(lines@.len() as int) =~= lines@);
                assert(out.deep_view() =~~= lines@.map_values(f));
            }
        }
        out
    }
}

} // verus!
