//! Parsing one recorded series into a table of unsigned integers.
//!
//! The first line that the filter policy keeps is the legend. Each later
//! kept line is a row: its comma-separated fields, trimmed, must be exactly
//! as many as the legend's and each an unsigned integer. A line that is kept
//! but is not such a row is malformed: it is reported and left out, and
//! parsing goes on.
use vstd::prelude::*;
use crate::cli::{Plot, Source};
use crate::filter::{compile_filters, first_bad_pattern, regex_compiles, skip_line, skipped};
use crate::text::{parse_usize, parsed_usize, split_on, split_trimmed, trimmed, views};

verus! {

/// One parsed series.
#[derive(Debug)]
pub struct Stats {
    /// What the series was read from.
    pub source: String,
    /// Column names; column 0 is the time axis.
    pub legend: Vec<String>,
    /// The rows, each as long as the legend.
    pub values: Vec<Vec<usize>>,
}

/// Why no table could be made.
#[derive(Debug, Clone, Copy, PartialEq, Eq)]
pub enum ReadError {
    /// The filter pattern at this index is not a valid regular expression.
    BadFilter(usize),
    /// No line is left to serve as the legend.
    NoLegend,
}

/// The trimmed comma-separated fields of a line.
pub open spec fn fields_of(line: Seq<char>) -> Seq<Seq<char>> {
    split_on(line, ',').map_values(|f: Seq<char>| trimmed(f))
}

/// `line` holds exactly `k` fields, each an unsigned integer.
pub open spec fn row_parses(line: Seq<char>, k: nat) -> bool {
    let f = fields_of(line);
    f.len() == k && forall|i: int| 0 <= i < f.len() ==> (#[trigger] parsed_usize(f[i])) is Some
}

/// The value of a field that parses, and 0 otherwise.
pub open spec fn field_value(f: Seq<char>) -> usize {
    match parsed_usize(f) {
        Some(v) => v,
        None => 0,
    }
}

/// The values of a row that parses.
pub open spec fn row_of(line: Seq<char>) -> Seq<usize> {
    fields_of(line).map_values(|f: Seq<char>| field_value(f))
}

/// `line` is kept by the filter and is a well-formed row of `k` fields.
pub open spec fn contributes(pats: Seq<Seq<char>>, k: nat, line: Seq<char>) -> bool {
    !skipped(pats, line) && row_parses(line, k)
}

/// `line` is kept by the filter but is not a well-formed row of `k` fields.
pub open spec fn malformed(pats: Seq<Seq<char>>, k: nat, line: Seq<char>) -> bool {
    !skipped(pats, line) && !row_parses(line, k)
}

/// The rows that the data lines `lines` give, in order.
pub open spec fn rows_in(pats: Seq<Seq<char>>, k: nat, lines: Seq<Seq<char>>) -> Seq<Seq<usize>>
    decreases lines.len(),
{
    if lines.len() == 0 {
        Seq::empty()
    } else {
        let p = rows_in(pats, k, lines.drop_last());
        if contributes(pats, k, lines.last()) {
            p.push(row_of(lines.last()))
        } else {
            p
        }
    }
}

/// The indices, counted from `base`, of the malformed lines among `lines`.
pub open spec fn malformed_in(pats: Seq<Seq<char>>, k: nat, lines: Seq<Seq<char>>, base: int) -> Seq<int>
    decreases lines.len(),
{
    if lines.len() == 0 {
        Seq::empty()
    } else {
        let p = malformed_in(pats, k, lines.drop_last(), base);
        if malformed(pats, k, lines.last()) {
            p.push(base + lines.len() - 1)
        } else {
            p
        }
    }
}

/// The index of the first line, from `i` on, that the filter keeps; the
/// number of lines if there is none.
pub open spec fn first_kept(pats: Seq<Seq<char>>, lines: Seq<Seq<char>>, i: int) -> int
    decreases lines.len() - i,
{
    if i >= lines.len() {
        lines.len() as int
    } else if !skipped(pats, lines[i]) {
        i
    } else {
        first_kept(pats, lines, i + 1)
    }
}

/// The index of the legend line.
pub open spec fn legend_index(pats: Seq<Seq<char>>, lines: Seq<Seq<char>>) -> int {
    first_kept(pats, lines, 0)
}

/// The number of columns that the legend sets.
pub open spec fn arity(pats: Seq<Seq<char>>, lines: Seq<Seq<char>>) -> nat {
    fields_of(lines[legend_index(pats, lines)]).len()
}

/// The lines after the legend.
pub open spec fn data_lines(pats: Seq<Seq<char>>, lines: Seq<Seq<char>>) -> Seq<Seq<char>> {
    lines.subrange(legend_index(pats, lines) + 1, lines.len() as int)
}

/// The rows of the table that `lines` make under the patterns `pats`.
pub open spec fn table_rows(pats: Seq<Seq<char>>, lines: Seq<Seq<char>>) -> Seq<Seq<usize>> {
    rows_in(pats, arity(pats, lines), data_lines(pats, lines))
}

/// The indices of the malformed lines of that table.
pub open spec fn table_malformed(pats: Seq<Seq<char>>, lines: Seq<Seq<char>>) -> Seq<int> {
    malformed_in(pats, arity(pats, lines), data_lines(pats, lines), legend_index(pats, lines) + 1)
}

/// Every pattern compiles.
pub open spec fn all_compile(pats: Seq<Seq<char>>) -> bool {
    forall|i: int| 0 <= i < pats.len() ==> regex_compiles(#[trigger] pats[i])
}

/// The views of a sequence of rows.
pub open spec fn rows_view(v: Seq<Vec<usize>>) -> Seq<Seq<usize>> {
    v.map_values(|r: Vec<usize>| r@)
}

/// The values of `line` as a row of `k` columns, if it is one.
pub fn parse_row(line: &str, k: usize) -> (r: Option<Vec<usize>>)
    ensures
        r is Some <==> row_parses(line@, k as nat),
        r matches Some(v) ==> v@ == row_of(line@),
{
    let fields = split_trimmed(line, ',');
    let ghost f = fields_of(line@);
    assert(views(fields@).len() == fields@.len());
    if fields.len() != k {
        return None;
    }
    let mut row: Vec<usize> = Vec::new();
    let mut i: usize = 0;
    while i < k
        invariant
            k == fields@.len(),
            f == views(fields@),
            f == fields_of(line@),
            f.len() == k,
            i <= k,
            row@ =~= row_of(line@).subrange(0, i as int),
            forall|j: int| 0 <= j < i ==> (#[trigger] parsed_usize(f[j])) is Some,
        decreases k - i,
    {
        assert(f[i as int] == fields@[i as int]@);
        assert(row_of(line@).len() == k);
        match parse_usize(fields[i].as_str()) {
            Some(v) => {
                assert(row_of(line@)[i as int] == v);
                row.push(v);
            },
            None => {
                assert(parsed_usize(f[i as int]) is None);
                return None;
            },
        }
        i = i + 1;
    }
    assert(row_of(line@).subrange(0, k as int) =~= row_of(line@));
    Some(row)
}

/// Parses the lines of one recorded series, read from `source`, under the
/// filter patterns of `arg`. On success, gives the table and the indices
/// (into `lines`) of the malformed lines that were left out.
pub fn read_samples(arg: &Plot, lines: &Vec<String>, source: &Source) -> (r: Result<(Stats, Vec<usize>), ReadError>)
    ensures
        ({
            let pats = views(arg.filter@);
            let ls = views(lines@);
            &&& r is Ok <==> all_compile(pats) && legend_index(pats, ls) < ls.len()
            &&& r matches Err(ReadError::BadFilter(j)) ==> first_bad_pattern(pats, j as int)
            &&& (r matches Err(ReadError::NoLegend)) <==> all_compile(pats) && legend_index(pats, ls) == ls.len()
            &&& r matches Ok((st, bad)) ==> {
                &&& st.source@ == source.path()
                &&& views(st.legend@) == fields_of(ls[legend_index(pats, ls)])
                &&& rows_view(st.values@) == table_rows(pats, ls)
                &&& bad@.map_values(|b: usize| b as int) == table_malformed(pats, ls)
            }
        }),
{
    let ghost pats = views(arg.filter@);
    let ghost ls = views(lines@);
    let patterns = match compile_filters(&arg.filter) {
        Ok(p) => p,
        Err(j) => {
            return Err(ReadError::BadFilter(j));
        },
    };
    let n = lines.len();
    let mut h: usize = 0;
    while h < n && skip_line(&patterns, lines[h].as_str())
        invariant
            n == ls.len(),
            ls == views(lines@),
            h <= n,
            crate::filter::patterns_of(patterns@) == pats,
            first_kept(pats, ls, 0) == first_kept(pats, ls, h as int),
        decreases n - h,
    {
        assert(ls[h as int] == lines@[h as int]@);
        h = h + 1;
    }
    if h == n {
        return Err(ReadError::NoLegend);
    }
    assert(ls[h as int] == lines@[h as int]@);
    assert(legend_index(pats, ls) == h);
    let legend = split_trimmed(lines[h].as_str(), ',');
    let k = legend.len();
    assert(views(legend@).len() == k);
    let mut values: Vec<Vec<usize>> = Vec::new();
    let mut bad: Vec<usize> = Vec::new();
    let mut i: usize = h + 1;
    assert(ls.subrange(h + 1, h + 1) =~= Seq::<Seq<char>>::empty());
    while i < n
        invariant
            n == ls.len(),
            ls == views(lines@),
            h < i <= n,
            k == arity(pats, ls),
            legend_index(pats, ls) == h,
            crate::filter::patterns_of(patterns@) == pats,
            rows_view(values@) =~= rows_in(pats, k as nat, ls.subrange(h + 1, i as int)),
            bad@.map_values(|b: usize| b as int) =~= malformed_in(pats, k as nat, ls.subrange(h + 1, i as int), h + 1),
        decreases n - i,
    {
        let line = lines[i].as_str();
        let ghost prev = ls.subrange(h + 1, i as int);
        let ghost cur = ls.subrange(h + 1, i + 1);
        assert(cur.drop_last() =~= prev);
        assert(cur.last() == line@);
        if !skip_line(&patterns, line) {
            match parse_row(line, k) {
                Some(row) => {
                    let ghost old_values = values@;
                    values.push(row);
                    assert(rows_view(values@) =~= rows_view(old_values).push(row@));
                },
                None => {
                    let ghost old_bad = bad@;
                    bad.push(i);
                    assert(bad@.map_values(|b: usize| b as int) =~= old_bad.map_values(|b: usize| b as int).push(i as int));
                },
            }
        }
        i = i + 1;
    }
    assert(ls.subrange(h + 1, n as int) =~= data_lines(pats, ls));
    let stats = Stats { source: source.display(), legend, values };
    Ok((stats, bad))
}

/// The rows of two runs of lines, one after the other, are the rows of the
/// first followed by those of the second.
pub proof fn lemma_rows_concat(pats: Seq<Seq<char>>, k: nat, a: Seq<Seq<char>>, b: Seq<Seq<char>>)
    ensures
        rows_in(pats, k, a + b) == rows_in(pats, k, a) + rows_in(pats, k, b),
    decreases b.len(),
{
    if b.len() == 0 {
        assert(a + b =~= a);
        assert(rows_in(pats, k, a) + rows_in(pats, k, b) =~= rows_in(pats, k, a));
    } else {
        assert((a + b).drop_last() =~= a + b.drop_last());
        assert((a + b).last() == b.last());
        lemma_rows_concat(pats, k, a, b.drop_last());
        let ra = rows_in(pats, k, a);
        let rb = rows_in(pats, k, b.drop_last());
        if contributes(pats, k, b.last()) {
            assert((ra + rb).push(row_of(b.last())) =~= ra + rb.push(row_of(b.last())));
        }
    }
}

/// A line that adds no row leaves the rows around it as they were.
proof fn lemma_line_adds_no_row(
    pats: Seq<Seq<char>>,
    k: nat,
    before: Seq<Seq<char>>,
    line: Seq<char>,
    after: Seq<Seq<char>>,
)
    requires
        !contributes(pats, k, line),
    ensures
        rows_in(pats, k, before + seq![line] + after) == rows_in(pats, k, before) + rows_in(pats, k, after),
{
    let one = seq![line];
    lemma_rows_concat(pats, k, before + one, after);
    lemma_rows_concat(pats, k, before, one);
    assert(one.drop_last() =~= Seq::<Seq<char>>::empty());
    assert(one.last() == line);
    reveal_with_fuel(rows_in, 2);
    assert(rows_in(pats, k, one) =~= Seq::<Seq<usize>>::empty());
    assert(rows_in(pats, k, before) + rows_in(pats, k, one) =~= rows_in(pats, k, before));
}

/// A line that some filter pattern matches never gives a row, whether or
/// not it would parse: the rows of the lines around it are all there is.
pub proof fn lemma_filtered_line_gives_no_row(
    pats: Seq<Seq<char>>,
    k: nat,
    before: Seq<Seq<char>>,
    line: Seq<char>,
    after: Seq<Seq<char>>,
)
    requires
        crate::filter::any_finds(pats, line),
    ensures
        rows_in(pats, k, before + seq![line] + after) == rows_in(pats, k, before) + rows_in(pats, k, after),
{
    lemma_line_adds_no_row(pats, k, before, line, after);
}

/// A malformed line gives no row, is reported, and does not stop the rows
/// of the lines after it.
pub proof fn lemma_malformed_line_is_dropped(
    pats: Seq<Seq<char>>,
    k: nat,
    before: Seq<Seq<char>>,
    line: Seq<char>,
    after: Seq<Seq<char>>,
    base: int,
)
    requires
        malformed(pats, k, line),
    ensures
        rows_in(pats, k, before + seq![line] + after) == rows_in(pats, k, before) + rows_in(pats, k, after),
        malformed_in(pats, k, before + seq![line] + after, base).contains(base + before.len()),
{
    lemma_line_adds_no_row(pats, k, before, line, after);
    lemma_malformed_reported(pats, k, before + seq![line], after, base);
    let front = before + seq![line];
    assert(front.drop_last() =~= before);
    let m = malformed_in(pats, k, front, base);
    assert(front.last() == line);
    assert(m.last() == base + before.len());
    assert(malformed_in(pats, k, front + after, base)[m.len() - 1] == base + before.len());
}

/// Lines appended after a run keep the malformed lines already reported.
proof fn lemma_malformed_reported(
    pats: Seq<Seq<char>>,
    k: nat,
    a: Seq<Seq<char>>,
    b: Seq<Seq<char>>,
    base: int,
)
    ensures
        malformed_in(pats, k, a, base).len() <= malformed_in(pats, k, a + b, base).len(),
        forall|i: int| 0 <= i < malformed_in(pats, k, a, base).len() ==>
            #[trigger] malformed_in(pats, k, a + b, base)[i] == malformed_in(pats, k, a, base)[i],
    decreases b.len(),
{
    if b.len() == 0 {
        assert(a + b =~= a);
    } else {
        assert((a + b).drop_last() =~= a + b.drop_last());
        lemma_malformed_reported(pats, k, a, b.drop_last(), base);
    }
}

/// A legend of `k` columns followed by two rows of `k` unsigned integers
/// each gives a table of exactly those two rows.
pub proof fn lemma_two_rows(pats: Seq<Seq<char>>, lines: Seq<Seq<char>>)
    requires
        lines.len() == 3,
        forall|i: int| 0 <= i < 3 ==> !skipped(pats, #[trigger] lines[i]),
        row_parses(lines[1], fields_of(lines[0]).len()),
        row_parses(lines[2], fields_of(lines[0]).len()),
    ensures
        table_rows(pats, lines) == seq![row_of(lines[1]), row_of(lines[2])],
        table_rows(pats, lines).len() == 2,
{
    assert(!skipped(pats, lines[0]));
    assert(legend_index(pats, lines) == 0);
    let d = data_lines(pats, lines);
    assert(d =~= seq![lines[1], lines[2]]);
    assert(d.drop_last() =~= seq![lines[1]]);
    assert(d.drop_last().drop_last() =~= Seq::<Seq<char>>::empty());
    assert(!skipped(pats, lines[1]));
    assert(!skipped(pats, lines[2]));
    reveal_with_fuel(rows_in, 3);
    assert(table_rows(pats, lines) =~= seq![row_of(lines[1]), row_of(lines[2])]);
}

} // verus!
