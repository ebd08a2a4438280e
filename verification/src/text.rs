//! Text helpers on character sequences: removing every occurrence of a marker
//! and joining lines.

use vstd::prelude::*;

verus! {

/// The texts of a sequence of strings, one by one.
pub open spec fn lines_view(rows: Seq<String>) -> Seq<Seq<char>> {
    rows.map_values(|s: String| s@)
}

/// Whether `pat` occurs in `s` starting at index `i`.
pub open spec fn occurs_at(s: Seq<char>, pat: Seq<char>, i: int) -> bool {
    &&& 0 <= i
    &&& i + pat.len() <= s.len()
    &&& s.subrange(i, i + pat.len()) == pat
}

/// `s` with every occurrence of `pat` removed, scanning from the left and
/// never overlapping two occurrences. An empty `pat` removes nothing.
pub open spec fn remove_all(s: Seq<char>, pat: Seq<char>) -> Seq<char>
    decreases s.len(),
{
    if pat.len() == 0 || s.len() == 0 {
        s
    } else if occurs_at(s, pat, 0) {
        remove_all(s.skip(pat.len() as int), pat)
    } else {
        seq![s[0]] + remove_all(s.skip(1), pat)
    }
}

/// The lines of `rows` joined by a line feed between neighbours.
pub open spec fn join_lines(rows: Seq<Seq<char>>) -> Seq<char>
    decreases rows.len(),
{
    if rows.len() == 0 {
        Seq::empty()
    } else if rows.len() == 1 {
        rows[0]
    } else {
        join_lines(rows.drop_last()) + seq!['\n'] + rows.last()
    }
}

/// Tests whether `pat` occurs in `s` at character index `i`.
fn occurs_at_index(s: &str, pat: &str, i: usize, n: usize, m: usize) -> (r: bool)
    requires
        n == s@.len(),
        m == pat@.len(),
        i <= n,
    ensures
        r == occurs_at(s@, pat@, i as int),
{
    if m > n - i {
        return false;
    }
    let mut k: usize = 0;
    while k < m
        invariant
            k <= m,
            m <= n - i,
            n == s@.len(),
            m == pat@.len(),
            forall|j: int| 0 <= j < k ==> s@[i + j] == pat@[j],
        decreases m - k,
    {
        if s.get_char(i + k) != pat.get_char(k) {
            proof {
                assert(s@.subrange(i as int, i + m)[k as int] == s@[i + k]);
            }
            return false;
        }
        k = k + 1;
    }
    proof {
        assert(s@.subrange(i as int, i + m) =~= pat@);
    }
    true
}

/// Removes every occurrence of `pat` from `s`.
pub fn strip_marker(s: &str, pat: &str) -> (r: String)
    ensures
        r@ == remove_all(s@, pat@),
{
    let n: usize = s.unicode_len();
    let m: usize = pat.unicode_len();
    if m == 0 {
        return String::from_str(s);
    }
    let mut out: String = String::new();
    let mut i: usize = 0;
    proof {
        assert(s@.skip(0) =~= s@);
        assert(out@ + remove_all(s@, pat@) =~= remove_all(s@, pat@));
    }
    while i < n
        invariant
            i <= n,
            n == s@.len(),
            m == pat@.len(),
            m > 0,
            out@ + remove_all(s@.skip(i as int), pat@) == remove_all(s@, pat@),
        decreases n - i,
    {
        let ghost rest = s@.skip(i as int);
        let hit: bool = occurs_at_index(s, pat, i, n, m);
        proof {
            if i + m <= n {
                assert(rest.subrange(0, m as int) =~= s@.subrange(i as int, i + m));
            }
            assert(occurs_at(rest, pat@, 0) == hit);
        }
        if hit {
            proof {
                assert(rest.skip(m as int) =~= s@.skip(i + m));
            }
            i = i + m;
        } else {
            let piece: &str = s.substring_char(i, i + 1);
            proof {
                assert(piece@ =~= seq![rest[0]]);
                assert(rest.skip(1) =~= s@.skip(i + 1));
                assert(out@ + (seq![rest[0]] + remove_all(rest.skip(1), pat@)) =~= (out@
                    + piece@) + remove_all(rest.skip(1), pat@));
            }
            out.append(piece);
            i = i + 1;
        }
    }
    proof {
        assert(s@.skip(n as int) =~= Seq::<char>::empty());
        assert(out@ + Seq::<char>::empty() =~= out@);
    }
    out
}

/// Joins `rows` with a line feed between neighbouring lines.
pub fn join_rows(rows: &Vec<String>) -> (r: String)
    ensures
        r@ == join_lines(lines_view(rows@)),
{
    let ghost lines = lines_view(rows@);
    let mut out: String = String::new();
    let mut i: usize = 0;
    while i < rows.len()
        invariant
            i <= rows.len(),
            lines == lines_view(rows@),
            out@ == join_lines(lines.take(i as int)),
        decreases rows.len() - i,
    {
        proof {
            let next = lines.take(i + 1);
            assert(next.drop_last() =~= lines.take(i as int));
            assert(next.last() == rows@[i as int]@);
            reveal_strlit("\n");
            assert("\n"@ =~= seq!['\n']);
            if i == 0 {
                assert(join_lines(lines.take(0)) =~= Seq::<char>::empty());
                assert(Seq::<char>::empty() + rows@[0]@ =~= rows@[0]@);
            }
        }
        if i > 0 {
            out.append("\n");
        }
        out.append(rows[i].as_str());
        i = i + 1;
    }
    proof {
        assert(lines.take(rows.len() as int) =~= lines);
    }
    out
}

/// The character of the decimal digit `d`.
pub open spec fn digit_char(d: int) -> char {
    if d == 0 {
        '0'
    } else if d == 1 {
        '1'
    } else if d == 2 {
        '2'
    } else if d == 3 {
        '3'
    } else if d == 4 {
        '4'
    } else if d == 5 {
        '5'
    } else if d == 6 {
        '6'
    } else if d == 7 {
        '7'
    } else if d == 8 {
        '8'
    } else {
        '9'
    }
}

/// The decimal digits of `n`, without leading zeros; `0` for zero.
pub open spec fn digits(n: nat) -> Seq<char>
    decreases n,
{
    if n < 10 {
        seq![digit_char(n as int)]
    } else {
        digits(n / 10).push(digit_char((n % 10) as int))
    }
}

/// The last `width` decimal digits of `n`, with leading zeros where `n` has
/// fewer.
pub open spec fn padded(n: nat, width: nat) -> Seq<char>
    decreases width,
{
    if width == 0 {
        Seq::empty()
    } else {
        padded(n / 10, (width - 1) as nat).push(digit_char((n % 10) as int))
    }
}

/// `n` without its last `places` decimal digits.
pub open spec fn shifted(n: nat, places: nat) -> nat
    decreases places,
{
    if places == 0 {
        n
    } else {
        shifted(n / 10, (places - 1) as nat)
    }
}

/// The number `mantissa / 10^scale` in decimal notation: a minus sign where
/// it is negative, the digits before the decimal point, and, where `scale` is
/// not zero, the decimal point and exactly `scale` digits after it.
pub open spec fn fixed_text(mantissa: int, scale: nat) -> Seq<char> {
    let n: nat = if mantissa < 0 {
        (-mantissa) as nat
    } else {
        mantissa as nat
    };
    let sign: Seq<char> = if mantissa < 0 {
        seq!['-']
    } else {
        Seq::empty()
    };
    let fraction: Seq<char> = if scale == 0 {
        Seq::empty()
    } else {
        seq!['.'] + padded(n, scale)
    };
    sign + digits(shifted(n, scale)) + fraction
}

/// The digit `d` as a text of one character.
pub fn digit_text(d: u8) -> (r: &'static str)
    requires
        d < 10,
    ensures
        r@ == seq![digit_char(d as int)],
{
    proof {
        reveal_strlit("0");
        reveal_strlit("1");
        reveal_strlit("2");
        reveal_strlit("3");
        reveal_strlit("4");
        reveal_strlit("5");
        reveal_strlit("6");
        reveal_strlit("7");
        reveal_strlit("8");
        reveal_strlit("9");
    }
    let r = if d == 0 {
        "0"
    } else if d == 1 {
        "1"
    } else if d == 2 {
        "2"
    } else if d == 3 {
        "3"
    } else if d == 4 {
        "4"
    } else if d == 5 {
        "5"
    } else if d == 6 {
        "6"
    } else if d == 7 {
        "7"
    } else if d == 8 {
        "8"
    } else {
        "9"
    };
    assert(r@ =~= seq![digit_char(d as int)]);
    r
}

/// Appends the decimal digits of `n` to `out`.
pub fn push_digits(out: &mut String, n: u128)
    ensures
        final(out)@ == old(out)@ + digits(n as nat),
    decreases n,
{
    if n >= 10 {
        push_digits(out, n / 10);
    }
    let ghost before = out@;
    out.append(digit_text((n % 10) as u8));
    proof {
        if n >= 10 {
            assert(out@ =~= old(out)@ + digits(n as nat));
        } else {
            assert(out@ =~= old(out)@ + digits(n as nat));
        }
    }
}

/// Appends the last `width` decimal digits of `n` to `out`, with leading
/// zeros where `n` has fewer.
pub fn push_padded(out: &mut String, n: u128, width: u32)
    ensures
        final(out)@ == old(out)@ + padded(n as nat, width as nat),
    decreases width,
{
    if width > 0 {
        push_padded(out, n / 10, width - 1);
        out.append(digit_text((n % 10) as u8));
        proof {
            assert(out@ =~= old(out)@ + padded(n as nat, width as nat));
        }
    } else {
        proof {
            assert(out@ =~= old(out)@ + padded(n as nat, width as nat));
        }
    }
}

/// The digit at index `j` of a zero-padded number is the digit that stands
/// `width - 1 - j` places from its end.
proof fn lemma_padded_index(n: nat, width: nat, j: int)
    requires
        0 <= j < width,
    ensures
        padded(n, width).len() == width,
        padded(n, width)[j] == digit_char((shifted(n, (width - 1 - j) as nat) % 10) as int),
    decreases width,
{
    lemma_padded_len(n / 10, (width - 1) as nat);
    if j < width - 1 {
        lemma_padded_index(n / 10, (width - 1) as nat, j);
        assert(shifted(n, (width - 1 - j) as nat) == shifted(n / 10, (width - 2 - j) as nat));
    }
}

proof fn lemma_padded_len(n: nat, width: nat)
    ensures
        padded(n, width).len() == width,
    decreases width,
{
    if width > 0 {
        lemma_padded_len(n / 10, (width - 1) as nat);
    }
}

/// Dropping one more digit divides by ten once more.
proof fn lemma_shifted_step(n: nat, places: nat)
    ensures
        shifted(n, places + 1) == shifted(n, places) / 10,
    decreases places,
{
    assert(shifted(n, places + 1) == shifted(n / 10, places));
    if places > 0 {
        lemma_shifted_step(n / 10, (places - 1) as nat);
        assert(shifted(n, places) == shifted(n / 10, (places - 1) as nat));
    } else {
        assert(shifted(n / 10, 0) == n / 10);
    }
}

/// Writes `mantissa / 10^scale` in decimal notation.
pub fn fixed_to_text(mantissa: i128, scale: u32) -> (r: String)
    ensures
        r@ == fixed_text(mantissa as int, scale as nat),
{
    let start: u128 = if mantissa < 0 {
        (-(mantissa + 1)) as u128 + 1
    } else {
        mantissa as u128
    };
    let mut rest: u128 = start;
    let mut low: Vec<u8> = Vec::new();
    let mut k: u32 = 0;
    while k < scale
        invariant
            k <= scale,
            rest == shifted(start as nat, k as nat),
            low@.len() == k,
            forall|j: int| 0 <= j < k ==> (#[trigger] low@[j]) == shifted(start as nat, j as nat) % 10,
        decreases scale - k,
    {
        proof {
            lemma_shifted_step(start as nat, k as nat);
        }
        low.push((rest % 10) as u8);
        rest = rest / 10;
        k = k + 1;
    }
    let mut out: String = String::new();
    if mantissa < 0 {
        proof {
            reveal_strlit("-");
            assert("-"@ =~= seq!['-']);
        }
        out.append("-");
    }
    let ghost sign = out@;
    push_digits(&mut out, rest);
    if scale > 0 {
        proof {
            reveal_strlit(".");
            assert("."@ =~= seq!['.']);
            lemma_padded_len(start as nat, scale as nat);
        }
        out.append(".");
        let ghost head = out@;
        let ghost tail = padded(start as nat, scale as nat);
        let mut j: u32 = scale;
        proof {
            assert(tail.take(0) =~= Seq::<char>::empty());
            assert(head + tail.take(0) =~= head);
        }
        while j > 0
            invariant
                j <= scale,
                low@.len() == scale,
                tail == padded(start as nat, scale as nat),
                tail.len() == scale,
                forall|i: int|
                    0 <= i < scale ==> (#[trigger] low@[i]) == shifted(start as nat, i as nat) % 10,
                out@ == head + tail.take(scale - j),
            decreases j,
        {
            j = j - 1;
            let d: u8 = low[j as usize];
            proof {
                lemma_padded_index(start as nat, scale as nat, scale - 1 - j);
                assert(tail.take(scale - j) =~= tail.take(scale - 1 - j).push(
                    digit_char(d as int),
                ));
                assert(head + tail.take(scale - 1 - j) + seq![digit_char(d as int)] =~= head
                    + tail.take(scale - j));
            }
            out.append(digit_text(d));
        }
        proof {
            assert(tail.take(scale as int) =~= tail);
            assert(out@ =~= sign + digits(rest as nat) + (seq!['.'] + tail));
        }
    }
    out
}

} // verus!
