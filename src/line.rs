//! One output line from one input line: the line is split on a delimiter
//! pattern, empty pieces are dropped, the whole line is put in front as field
//! 0, the ranges select fields, and the fields are joined by a separator.
use crate::extract::{extract_columns, selected};
use crate::range::{parse_token, separate_args, splits_args, ColumnRange};
use vstd::prelude::*;
use vstd::string::StringExecFns;

verus! {

#[verifier::external_type_specification]
#[verifier::external_body]
pub struct ExRegex(regex::Regex);

#[verifier::external_type_specification]
#[verifier::external_body]
pub struct ExRegexError(regex::Error);

/// Whether `regex::Regex::new` accepts a pattern; it depends on the pattern
/// alone.
pub uninterp spec fn pattern_compiles(pattern: Seq<char>) -> bool;

/// The pieces of `line` between the matches of the compiled `pattern`, as
/// `regex::Regex::split` gives them; they depend on the pattern and the line
/// alone.
pub uninterp spec fn split_of(pattern: Seq<char>, line: Seq<char>) -> Seq<Seq<char>>;

/// The text of each piece.
pub open spec fn views_of(pieces: Seq<&str>) -> Seq<Seq<char>> {
    pieces.map_values(|p: &str| p@)
}

/// A compiled delimiter, together with the pattern it was compiled from.
/// Only `compile_pattern` makes one.
pub struct Delimiter {
    re: regex::Regex,
    pattern: String,
}

impl View for Delimiter {
    type V = Seq<char>;

    /// The pattern.
    closed spec fn view(&self) -> Seq<char> {
        self.pattern@
    }
}

/// Relies on `regex::Regex::new`: compiles the pattern, or says why it cannot.
/// The pattern is kept beside the compiled regex.
#[verifier::external_body]
fn compile_pattern(pattern: &str) -> (r: Result<Delimiter, regex::Error>)
    ensures
        r is Ok == pattern_compiles(pattern@),
        r matches Ok(d) ==> d@ == pattern@,
{
    match regex::Regex::new(pattern) {
        Ok(re) => Ok(Delimiter { re, pattern: String::from(pattern) }),
        Err(e) => Err(e),
    }
}

/// Relies on `regex::Regex::split`: the pieces of `line` between the matches
/// of the delimiter, in order.
#[verifier::external_body]
fn split_pieces<'a>(d: &Delimiter, line: &'a str) -> (r: Vec<&'a str>)
    ensures
        views_of(r@) == split_of(d@, line@),
{
    d.re.split(line).collect()
}

/// The pieces that are not empty, in order.
pub open spec fn nonempty_pieces<'a>(pieces: Seq<&'a str>) -> Seq<&'a str> {
    pieces.filter(|p: &'a str| p@.len() > 0)
}

/// The fields of a line: the whole line first, then its non-empty pieces.
pub open spec fn line_fields<'a>(line: &'a str, pieces: Seq<&'a str>) -> Seq<&'a str> {
    seq![line] + nonempty_pieces(pieces)
}

/// The parts, with `sep` between each two of them.
pub open spec fn joined(parts: Seq<&str>, sep: Seq<char>) -> Seq<char>
    decreases parts.len(),
{
    if parts.len() == 0 {
        Seq::empty()
    } else if parts.len() == 1 {
        parts[0]@
    } else {
        joined(parts.drop_last(), sep) + sep + parts.last()@
    }
}

/// The output line for `line`, split into `pieces`.
pub open spec fn output_line<'a>(
    line: &'a str,
    pieces: Seq<&'a str>,
    ranges: Seq<ColumnRange>,
    sep: Seq<char>,
) -> Seq<char> {
    joined(selected(ranges, line_fields(line, pieces)), sep)
}

/// Joins `parts` with `separator` between each two.
pub fn join_fields(parts: &Vec<&str>, separator: &str) -> (r: String)
    ensures
        r@ == joined(parts@, separator@),
{
    let mut out = String::new();
    let mut i: usize = 0;
    while i < parts.len()
        invariant
            i <= parts@.len(),
            out@ == joined(parts@.take(i as int), separator@),
        decreases parts@.len() - i,
    {
        proof {
            let t = parts@.take(i + 1);
            assert(t.drop_last() =~= parts@.take(i as int));
            assert(t.last() == parts@[i as int]);
        }
        if i > 0 {
            out.append(separator);
        }
        out.append(parts[i]);
        i = i + 1;
    }
    assert(parts@.take(i as int) =~= parts@);
    out
}

/// The output line for `line`, given the pieces that the delimiter split it
/// into.
pub fn format_fields(line: &str, pieces: &Vec<&str>, ranges: &[ColumnRange], separator: &str) -> (r:
    String)
    ensures
        r@ == output_line(line, pieces@, ranges@, separator@),
{
    let mut fields: Vec<&str> = Vec::new();
    fields.push(line);
    let mut i: usize = 0;
    assert(pieces@.take(0) =~= Seq::<&str>::empty());
    assert(nonempty_pieces(Seq::<&str>::empty()) =~= Seq::<&str>::empty()) by {
        reveal(Seq::filter);
    }
    assert(fields@ =~= line_fields(line, pieces@.take(0)));
    while i < pieces.len()
        invariant
            i <= pieces@.len(),
            fields@ == line_fields(line, pieces@.take(i as int)),
        decreases pieces@.len() - i,
    {
        proof {
            assert(pieces@.take(i + 1) =~= pieces@.take(i as int).push(pieces@[i as int]));
            pieces@.take(i as int).lemma_filter_push(
                pieces@[i as int],
                |p: &str| p@.len() > 0,
            );
        }
        let p = pieces[i];
        if !p.is_empty() {
            fields.push(p);
        }
        i = i + 1;
        assert(fields@ =~= line_fields(line, pieces@.take(i as int)));
    }
    assert(pieces@.take(i as int) =~= pieces@);
    let chosen = extract_columns(ranges, fields.as_slice());
    join_fields(&chosen, separator)
}

/// What a run needs to turn input lines into output lines.
pub struct LineFormat {
    pub delimiter: Delimiter,
    pub separator: String,
    pub ranges: Vec<ColumnRange>,
}

/// Why a run cannot start.
pub enum SetupError {
    /// The delimiter is not a pattern that compiles.
    BadDelimiter(regex::Error),
    /// No range leads the arguments.
    NoColumns,
}

/// Prepares a run: compiles the delimiter, then splits the arguments into
/// ranges and input names. Fails where the delimiter does not compile, or
/// where no range leads the arguments.
pub fn setup(delimiter: &str, separator: String, args: Vec<String>) -> (r: Result<
    (LineFormat, Vec<String>),
    SetupError,
>)
    ensures
        r matches Err(SetupError::BadDelimiter(_)) <==> !pattern_compiles(delimiter@),
        r matches Err(SetupError::NoColumns) <==> pattern_compiles(delimiter@) && (args@.len()
            == 0 || parse_token(args@[0]@) is None),
        r matches Ok((f, names)) ==> f.delimiter@ == delimiter@ && f.separator == separator
            && f.ranges@.len() > 0
            && splits_args(args@, f.ranges@, names@),
{
    let re = match compile_pattern(delimiter) {
        Ok(re) => re,
        Err(e) => {
            return Err(SetupError::BadDelimiter(e));
        },
    };
    let (ranges, names) = separate_args(args);
    if ranges.len() == 0 {
        return Err(SetupError::NoColumns);
    }
    Ok((LineFormat { delimiter: re, separator, ranges }, names))
}

impl LineFormat {
    /// The output line for one input line, split by the delimiter.
    pub fn format_line(&self, line: &str) -> (r: String)
        ensures
            exists|pieces: Seq<&str>|
                #[trigger] views_of(pieces) == split_of(self.delimiter@, line@)
                    && r@ == output_line(line, pieces, self.ranges@, self.separator@),
    {
        let pieces = split_pieces(&self.delimiter, line);
        format_fields(line, &pieces, self.ranges.as_slice(), self.separator.as_str())
    }
}

} // verus!
