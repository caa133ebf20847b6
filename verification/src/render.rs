//! Text rendering of rolls and averages.
//!
//! Every piece of output is built here, character for character, against a
//! specification of the exact text: die values (Fudge faces render as `+`,
//! `-` and `0`), the comma-joined pool and kept lines, the modifier and the
//! emphasised total, and the average with two decimals.

use crate::average::{calculate_average, spec_avg_twice};
use crate::notation::{DieSides, DieSpec};
use crate::rolling::{roll, roll_outcome_ok, RollOptions, RollResult, POOL_CAP};
use vstd::prelude::*;
use vstd::string::StringExecFns;

verus! {

/// The digit character of a value below ten.
pub open spec fn dec_digit(d: int) -> char {
    if d == 0 {
        '0'
    } else if d == 1 {
        '1'
    } else if d == 2 {
        '2'
    } else if d == 3 {
        '3'
    } else if d == 4 {
        '4'
    } else if d == 5 {
        '5'
    } else if d == 6 {
        '6'
    } else if d == 7 {
        '7'
    } else if d == 8 {
        '8'
    } else {
        '9'
    }
}

/// The decimal digits of a nonnegative value, most significant first.
pub open spec fn dec_seq(n: int) -> Seq<char>
    decreases n,
{
    if n < 10 {
        seq![dec_digit(n)]
    } else {
        dec_seq(n / 10).push(dec_digit(n % 10))
    }
}

/// The decimal rendering of an integer, with a leading minus for negatives.
pub open spec fn int_seq(n: int) -> Seq<char> {
    if n < 0 {
        seq!['-'] + dec_seq(-n)
    } else {
        dec_seq(n)
    }
}

fn push_digit(s: &mut String, d: u64)
    requires
        d < 10,
    ensures
        final(s)@ == old(s)@.push(dec_digit(d as int)),
{
    if d == 0 {
        s.append("0");
        proof {
            reveal_strlit("0");
            assert(final(s)@ =~= old(s)@.push(dec_digit(d as int)));
        }
    } else if d == 1 {
        s.append("1");
        proof {
            reveal_strlit("1");
            assert(final(s)@ =~= old(s)@.push(dec_digit(d as int)));
        }
    } else if d == 2 {
        s.append("2");
        proof {
            reveal_strlit("2");
            assert(final(s)@ =~= old(s)@.push(dec_digit(d as int)));
        }
    } else if d == 3 {
        s.append("3");
        proof {
            reveal_strlit("3");
            assert(final(s)@ =~= old(s)@.push(dec_digit(d as int)));
        }
    } else if d == 4 {
        s.append("4");
        proof {
            reveal_strlit("4");
            assert(final(s)@ =~= old(s)@.push(dec_digit(d as int)));
        }
    } else if d == 5 {
        s.append("5");
        proof {
            reveal_strlit("5");
            assert(final(s)@ =~= old(s)@.push(dec_digit(d as int)));
        }
    } else if d == 6 {
        s.append("6");
        proof {
            reveal_strlit("6");
            assert(final(s)@ =~= old(s)@.push(dec_digit(d as int)));
        }
    } else if d == 7 {
        s.append("7");
        proof {
            reveal_strlit("7");
            assert(final(s)@ =~= old(s)@.push(dec_digit(d as int)));
        }
    } else if d == 8 {
        s.append("8");
        proof {
            reveal_strlit("8");
            assert(final(s)@ =~= old(s)@.push(dec_digit(d as int)));
        }
    } else {
        s.append("9");
        proof {
            reveal_strlit("9");
            assert(final(s)@ =~= old(s)@.push(dec_digit(d as int)));
        }
    }
}

/// Append the decimal digits of `n`.
fn push_dec(s: &mut String, n: u64)
    ensures
        final(s)@ == old(s)@ + dec_seq(n as int),
    decreases n,
{
    if n >= 10 {
        push_dec(s, n / 10);
        push_digit(s, n % 10);
        proof {
            assert(final(s)@ =~= old(s)@ + dec_seq(n as int));
        }
    } else {
        push_digit(s, n);
        proof {
            assert(final(s)@ =~= old(s)@ + dec_seq(n as int));
        }
    }
}

/// Append the decimal rendering of `n`, sign included.
fn push_int(s: &mut String, n: i64)
    ensures
        final(s)@ == old(s)@ + int_seq(n as int),
{
    if n < 0 {
        s.append("-");
        let m = (-(n as i128)) as u64;
        push_dec(s, m);
        proof {
            reveal_strlit("-");
            assert("-"@ =~= seq!['-']);
            assert(final(s)@ =~= old(s)@ + int_seq(n as int));
        }
    } else {
        push_dec(s, n as u64);
    }
}

/// The text of one die value: decimal for a standard die, while the Fudge
/// faces 1, -1 and 0 render as `+`, `-` and `0`.
pub open spec fn spec_format_die(v: int, die: DieSides) -> Seq<char> {
    match die {
        DieSides::Fudge => if v == 1 {
            "+"@
        } else if v == -1 {
            "-"@
        } else {
            "0"@
        },
        DieSides::Standard(_) => int_seq(v),
    }
}

/// Render one die value as text.
pub fn format_die(val: i64, die: &DieSides) -> (r: String)
    ensures
        r@ == spec_format_die(val as int, *die),
{
    match die {
        DieSides::Fudge => {
            if val == 1 {
                String::from_str("+")
            } else if val == -1 {
                String::from_str("-")
            } else {
                String::from_str("0")
            }
        },
        DieSides::Standard(_) => {
            let mut s = String::new();
            push_int(&mut s, val);
            proof {
                assert(s@ =~= int_seq(val as int));
            }
            s
        },
    }
}

/// The renderings of a pool's values, joined with a comma and a space.
pub open spec fn spec_value_list(vals: Seq<i64>, die: DieSides) -> Seq<char>
    decreases vals.len(),
{
    if vals.len() == 0 {
        Seq::<char>::empty()
    } else if vals.len() == 1 {
        spec_format_die(vals[0] as int, die)
    } else {
        spec_value_list(vals.drop_last(), die) + ", "@ + spec_format_die(
            vals.last() as int,
            die,
        )
    }
}

/// Render a pool's values as one comma-separated line.
pub fn render_value_list(vals: &Vec<i64>, die: &DieSides) -> (r: String)
    ensures
        r@ == spec_value_list(vals@, *die),
{
    let mut s = String::new();
    let mut i: usize = 0;
    proof {
        assert(vals@.take(0) =~= Seq::<i64>::empty());
    }
    while i < vals.len()
        invariant
            i <= vals@.len(),
            s@ == spec_value_list(vals@.take(i as int), *die),
        decreases vals@.len() - i,
    {
        if i > 0 {
            s.append(", ");
        }
        let piece = format_die(vals[i], die);
        s.append(piece.as_str());
        proof {
            assert(vals@.take(i as int + 1).drop_last() =~= vals@.take(i as int));
            assert(vals@.take(i as int + 1).last() == vals@[i as int]);
            assert(s@ =~= spec_value_list(vals@.take(i as int + 1), *die));
        }
        i = i + 1;
    }
    proof {
        assert(vals@.take(vals@.len() as int) =~= vals@);
    }
    s
}

/// The text of a modifier line's value: an explicit plus sign for a
/// nonnegative modifier.
pub open spec fn spec_mod_text(m: int) -> Seq<char> {
    if m >= 0 {
        "+"@ + dec_seq(m)
    } else {
        int_seq(m)
    }
}

/// The full text reported for one roll. In quiet mode only the total and a
/// newline; otherwise a blank line, the pool, the kept dice when some were
/// filtered away, the modifier when it is nonzero, and the total wrapped in
/// the terminal's bold escape.
pub open spec fn spec_report(
    pool: Seq<i64>,
    kept: Seq<i64>,
    total: int,
    modifier: int,
    die: DieSides,
    quiet: bool,
) -> Seq<char> {
    if quiet {
        int_seq(total) + "\n"@
    } else {
        "\n  Pool:      "@ + spec_value_list(pool, die) + "\n"@ + (if kept.len() < pool.len() {
            "  Kept:      "@ + spec_value_list(kept, die) + "\n"@
        } else {
            Seq::<char>::empty()
        }) + (if modifier != 0 {
            "  Modifier:  "@ + spec_mod_text(modifier) + "\n"@
        } else {
            Seq::<char>::empty()
        }) + "  Total:     \x1b[1m"@ + int_seq(total) + "\x1b[0m\n"@
    }
}

/// Render the report of one finished roll.
pub fn render_report(res: &RollResult, die: &DieSides, modifier: i32, quiet: bool) -> (r: String)
    ensures
        r@ == spec_report(res.pool@, res.kept@, res.total as int, modifier as int, *die, quiet),
{
    let mut s = String::new();
    if quiet {
        push_int(&mut s, res.total);
        s.append("\n");
        proof {
            assert(s@ =~= spec_report(
                res.pool@,
                res.kept@,
                res.total as int,
                modifier as int,
                *die,
                quiet,
            ));
        }
    } else {
        s.append("\n  Pool:      ");
        let pl = render_value_list(&res.pool, die);
        s.append(pl.as_str());
        s.append("\n");
        let ghost after_pool = s@;
        proof {
            assert(after_pool =~= "\n  Pool:      "@ + spec_value_list(res.pool@, *die) + "\n"@);
        }
        if res.kept.len() < res.pool.len() {
            s.append("  Kept:      ");
            let kl = render_value_list(&res.kept, die);
            s.append(kl.as_str());
            s.append("\n");
        }
        let ghost after_kept = s@;
        proof {
            assert(after_kept =~= after_pool + (if res.kept@.len() < res.pool@.len() {
                "  Kept:      "@ + spec_value_list(res.kept@, *die) + "\n"@
            } else {
                Seq::<char>::empty()
            }));
        }
        if modifier != 0 {
            s.append("  Modifier:  ");
            if modifier >= 0 {
                s.append("+");
                push_dec(&mut s, modifier as u64);
            } else {
                push_int(&mut s, modifier as i64);
            }
            s.append("\n");
        }
        let ghost after_mod = s@;
        proof {
            assert(after_mod =~= after_kept + (if modifier != 0 {
                "  Modifier:  "@ + spec_mod_text(modifier as int) + "\n"@
            } else {
                Seq::<char>::empty()
            }));
        }
        s.append("  Total:     \x1b[1m");
        push_int(&mut s, res.total);
        s.append("\x1b[0m\n");
        proof {
            assert(s@ =~= spec_report(
                res.pool@,
                res.kept@,
                res.total as int,
                modifier as int,
                *die,
                quiet,
            ));
        }
    }
    s
}

/// One roll of a parsed expression, together with the text reported for it.
pub fn perform_roll(dspec: &DieSpec, opts: &RollOptions, quiet: bool) -> (out: (
    RollResult,
    String,
))
    requires
        dspec.wf(),
        dspec.count as int <= POOL_CAP as int,
    ensures
        roll_outcome_ok(*dspec, *opts, out.0),
        out.1@ == spec_report(
            out.0.pool@,
            out.0.kept@,
            out.0.total as int,
            dspec.modifier as int,
            dspec.sides,
            quiet,
        ),
{
    let res = roll(dspec, opts);
    let text = render_report(&res, &dspec.sides, dspec.modifier, quiet);
    (res, text)
}

/// The header line announcing roll number `i` of a repeated run.
pub open spec fn spec_roll_header(i: int) -> Seq<char> {
    "\n--- Roll "@ + dec_seq(i) + " ---\n"@
}

/// Render the header of roll number `index` of a repeated run.
pub fn render_roll_header(index: u32) -> (r: String)
    ensures
        r@ == spec_roll_header(index as int),
{
    let mut s = String::new();
    s.append("\n--- Roll ");
    push_dec(&mut s, index as u64);
    s.append(" ---\n");
    proof {
        assert(s@ =~= spec_roll_header(index as int));
    }
    s
}

/// The text of an average, from twice its value. Two decimals normally
/// (always `.00` or `.50`, the average being a whole number of halves); in
/// quiet mode the bare value, with `.5` only when it is not whole.
pub open spec fn spec_avg_text(avg2: int, quiet: bool) -> Seq<char> {
    let a = if avg2 < 0 {
        -avg2
    } else {
        avg2
    };
    let sign: Seq<char> = if avg2 < 0 {
        "-"@
    } else {
        Seq::<char>::empty()
    };
    if quiet {
        sign + dec_seq(a / 2) + (if a % 2 == 1 {
            ".5"@
        } else {
            Seq::<char>::empty()
        })
    } else {
        sign + dec_seq(a / 2) + (if a % 2 == 1 {
            ".50"@
        } else {
            ".00"@
        })
    }
}

/// Render an average from twice its value.
pub fn format_average(avg2: i128, quiet: bool) -> (r: String)
    requires
        -0x1_0000_0000_0000_0000 <= avg2 <= 0x1_0000_0000_0000_0000,
    ensures
        r@ == spec_avg_text(avg2 as int, quiet),
{
    let mut s = String::new();
    let a: i128 = if avg2 < 0 {
        s.append("-");
        proof {
            reveal_strlit("-");
        }
        -avg2
    } else {
        avg2
    };
    let whole: u64 = (a / 2) as u64;
    let half: bool = (a % 2) == 1;
    push_dec(&mut s, whole);
    if half {
        if quiet {
            s.append(".5");
        } else {
            s.append(".50");
        }
    } else {
        if !quiet {
            s.append(".00");
        }
    }
    proof {
        assert(s@ =~= spec_avg_text(avg2 as int, quiet));
    }
    s
}

/// The full text reported for an average: the bare value in quiet mode, and
/// an indented `Average:` line otherwise.
pub open spec fn spec_average_report(dspec: DieSpec, quiet: bool) -> Seq<char> {
    if quiet {
        spec_avg_text(spec_avg_twice(dspec), true) + "\n"@
    } else {
        "\n  Average: "@ + spec_avg_text(spec_avg_twice(dspec), false) + "\n"@
    }
}

/// Render the average report of a parsed expression.
pub fn render_average_report(dspec: &DieSpec, quiet: bool) -> (r: String)
    ensures
        r@ == spec_average_report(*dspec, quiet),
{
    let avg2 = calculate_average(dspec);
    let text = format_average(avg2, quiet);
    let mut s = String::new();
    if quiet {
        s.append(text.as_str());
        s.append("\n");
    } else {
        s.append("\n  Average: ");
        s.append(text.as_str());
        s.append("\n");
    }
    proof {
        assert(s@ =~= spec_average_report(*dspec, quiet));
    }
    s
}

} // verus!
