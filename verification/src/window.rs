//! Row windowing: dropping a fixed number of leading and trailing lines.

use vstd::prelude::*;

verus! {

/// The lines of `rows` that remain when the first `lead` and the last `tail`
/// lines are dropped. Both counts refer to the full sequence; when they cover
/// it entirely, nothing remains.
pub open spec fn window<T>(rows: Seq<T>, lead: nat, tail: nat) -> Seq<T> {
    if lead + tail <= rows.len() {
        rows.subrange(lead as int, rows.len() - tail)
    } else {
        Seq::empty()
    }
}

/// Drops the first `skiprows` and the last `stoprows` lines of `rows_vec`.
pub fn remove_first_last_rows(rows_vec: Vec<String>, skiprows: usize, stoprows: usize) -> (r: Vec<
    String,
>)
    ensures
        r@ == window(rows_vec@, skiprows as nat, stoprows as nat),
{
    let n: usize = rows_vec.len();
    let mut r: Vec<String> = Vec::new();
    if stoprows > n || skiprows > n - stoprows {
        return r;
    }
    let end: usize = n - stoprows;
    let mut num: usize = skiprows;
    while num < end
        invariant
            skiprows <= num <= end,
            end == n - stoprows,
            n == rows_vec@.len(),
            r@ == rows_vec@.subrange(skiprows as int, num as int),
        decreases end - num,
    {
        r.push(rows_vec[num].clone());
        num = num + 1;
    }
    r
}

} // verus!
