//! Selection of fields from one split line.
//!
//! Field 0 is, by convention, the whole line. A negative index counts from
//! the end of the line's fields (-1 is the last); an index that still falls
//! outside the fields selects nothing.
use crate::range::ColumnRange;
use vstd::prelude::*;

verus! {

/// The indices that a range names, in the order it names them: upwards from
/// `start` when `start <= end`, downwards otherwise.
pub open spec fn range_indices(r: ColumnRange) -> Seq<int> {
    if r.start <= r.end {
        Seq::new((r.end - r.start + 1) as nat, |k: int| r.start + k)
    } else {
        Seq::new((r.start - r.end + 1) as nat, |k: int| r.start - k)
    }
}

/// An index resolved against `n` fields: a negative one counts from the end.
pub open spec fn resolve(i: int, n: int) -> int {
    if i < 0 {
        i + n
    } else {
        i
    }
}

pub open spec fn in_bounds(i: int, n: int) -> bool {
    0 <= resolve(i, n) < n
}

/// The fields that a sequence of indices selects; indices out of bounds are
/// skipped.
pub open spec fn picked<T>(idx: Seq<int>, fields: Seq<T>) -> Seq<T> {
    idx.filter(|i: int| in_bounds(i, fields.len() as int)).map_values(
        |i: int| fields[resolve(i, fields.len() as int)],
    )
}

pub open spec fn range_fields<T>(r: ColumnRange, fields: Seq<T>) -> Seq<T> {
    picked(range_indices(r), fields)
}

/// The fields that a list of ranges selects: each range's fields, in the
/// order of the ranges.
pub open spec fn selected<T>(ranges: Seq<ColumnRange>, fields: Seq<T>) -> Seq<T> {
    ranges.flat_map(|r: ColumnRange| range_fields(r, fields))
}

proof fn lemma_picked_push<T>(idx: Seq<int>, i: int, fields: Seq<T>)
    ensures
        picked(idx.push(i), fields) == if in_bounds(i, fields.len() as int) {
            picked(idx, fields).push(fields[resolve(i, fields.len() as int)])
        } else {
            picked(idx, fields)
        },
{
    let pred = |j: int| in_bounds(j, fields.len() as int);
    idx.lemma_filter_push(i, pred);
    let f = |j: int| fields[resolve(j, fields.len() as int)];
    if pred(i) {
        assert(idx.filter(pred).push(i).map_values(f) =~= idx.filter(pred).map_values(f).push(
            f(i),
        ));
    }
}

/// Indices out of bounds add nothing to what a prefix of the indices selects.
proof fn lemma_skip_out_of_bounds<T>(idx: Seq<int>, fields: Seq<T>, a: int, b: int)
    requires
        0 <= a <= b <= idx.len(),
        forall|j: int| a <= j < b ==> !in_bounds(#[trigger] idx[j], fields.len() as int),
    ensures
        picked(idx.take(b), fields) == picked(idx.take(a), fields),
    decreases b - a,
{
    if b > a {
        lemma_skip_out_of_bounds(idx, fields, a, b - 1);
        assert(idx.take(b) =~= idx.take(b - 1).push(idx[b - 1]));
        lemma_picked_push(idx.take(b - 1), idx[b - 1], fields);
    }
}

/// Appends the fields that one range selects. Only the indices that can
/// select a field, those from `-n` to `n - 1` for `n` fields, are visited.
fn push_range<'a>(rg: ColumnRange, columns: &'a [&'a str], results: &mut Vec<&'a str>)
    ensures
        final(results)@ == old(results)@ + range_fields(rg, columns@),
{
    let ghost idx = range_indices(rg);
    let ghost fields = columns@;
    let ghost base = results@;
    let n = columns.len() as i128;
    let s = rg.start as i128;
    let e = rg.end as i128;
    let ascending = s <= e;
    // The first and the last index visited, in the range's own direction.
    let (first, last) = if ascending {
        (if s < -n {
            -n
        } else {
            s
        }, if e > n - 1 {
            n - 1
        } else {
            e
        })
    } else {
        (if s > n - 1 {
            n - 1
        } else {
            s
        }, if e < -n {
            -n
        } else {
            e
        })
    };
    assert(picked(Seq::<int>::empty(), fields) =~= Seq::<&str>::empty()) by {
        reveal(Seq::filter);
    }
    assert(idx.take(0) =~= Seq::<int>::empty());
    assert(idx.take(idx.len() as int) =~= idx);
    if (ascending && first > last) || (!ascending && first < last) {
        proof {
            lemma_skip_out_of_bounds(idx, fields, 0, idx.len() as int);
        }
        return;
    }
    // Positions in `idx` of the first index visited and just past the last.
    let ghost p: int = if ascending {
        first - s
    } else {
        s - first
    };
    let ghost q: int = if ascending {
        last - s + 1
    } else {
        s - last + 1
    };
    proof {
        lemma_skip_out_of_bounds(idx, fields, 0, p);
    }
    let mut i: i128 = first;
    let mut more = true;
    let ghost mut k: int = p;
    while more
        invariant
            fields == columns@,
            n == fields.len(),
            idx == range_indices(rg),
            ascending == (rg.start <= rg.end),
            s == rg.start,
            last as int == (if ascending {
                if e > n - 1 {
                    n - 1
                } else {
                    e as int
                }
            } else {
                if e < -n {
                    -n
                } else {
                    e as int
                }
            }),
            e == rg.end,
            0 <= p <= k <= q <= idx.len(),
            q == (if ascending {
                last - s + 1
            } else {
                s - last + 1
            }),
            -n <= i < n,
            more ==> k < q && i == idx[k],
            !more ==> k == q,
            results@ == base + picked(idx.take(k), fields),
        decreases q - k,
    {
        proof {
            assert(idx.take(k + 1) =~= idx.take(k).push(idx[k]));
            lemma_picked_push(idx.take(k), idx[k], fields);
        }
        let j: i128 = if i < 0 {
            i + n
        } else {
            i
        };
        results.push(columns[j as usize]);
        proof {
            k = k + 1;
        }
        if i == last {
            more = false;
        } else if ascending {
            i = i + 1;
        } else {
            i = i - 1;
        }
    }
    proof {
        lemma_skip_out_of_bounds(idx, fields, q, idx.len() as int);
    }
}

/// The fields of `columns` that `column_ranges` select, in order, each range
/// in its own direction. Out-of-bounds indices are skipped.
pub fn extract_columns<'a>(column_ranges: &[ColumnRange], columns: &'a [&'a str]) -> (r: Vec<
    &'a str,
>)
    ensures
        r@ == selected(column_ranges@, columns@),
{
    let ghost f = |r: ColumnRange| range_fields(r, columns@);
    let mut results: Vec<&'a str> = Vec::new();
    let mut ri: usize = 0;
    assert(column_ranges@.take(0).flat_map(f) =~= Seq::<&str>::empty());
    while ri < column_ranges.len()
        invariant
            ri <= column_ranges@.len(),
            f == (|r: ColumnRange| range_fields(r, columns@)),
            results@ == column_ranges@.take(ri as int).flat_map(f),
        decreases column_ranges@.len() - ri,
    {
        proof {
            assert(column_ranges@.take(ri + 1) =~= column_ranges@.take(ri as int).push(
                column_ranges@[ri as int],
            ));
            column_ranges@.take(ri as int).lemma_flat_map_push(f, column_ranges@[ri as int]);
        }
        push_range(column_ranges[ri], columns, &mut results);
        ri = ri + 1;
    }
    assert(column_ranges@.take(ri as int) =~= column_ranges@);
    results
}

} // verus!
