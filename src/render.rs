//! The text of the job listing: a status mark, the id, the command and its
//! executor on one line; the times and the time used on the next.
use vstd::prelude::*;
use crate::classify::{chars_of, has_infix, span_contains};
use crate::executor::{is_no_executor, no_executor};
use crate::job::Commands;

verus! {

/// The text of one decimal digit.
pub open spec fn digit_str(d: nat) -> Seq<char> {
    if d == 0 {
        "0"@
    } else if d == 1 {
        "1"@
    } else if d == 2 {
        "2"@
    } else if d == 3 {
        "3"@
    } else if d == 4 {
        "4"@
    } else if d == 5 {
        "5"@
    } else if d == 6 {
        "6"@
    } else if d == 7 {
        "7"@
    } else if d == 8 {
        "8"@
    } else {
        "9"@
    }
}

/// The decimal digits of `n`, most significant first.
pub open spec fn digits(n: nat) -> Seq<char>
    decreases n,
{
    if n < 10 {
        digit_str(n)
    } else {
        digits(n / 10) + digit_str(n % 10)
    }
}

/// `x` in decimal, with a `-` before a negative number.
pub open spec fn decimal(x: int) -> Seq<char> {
    if x < 0 {
        "-"@ + digits((-x) as nat)
    } else {
        digits(x as nat)
    }
}

/// `x` in decimal, with a `0` before any number below 10.
pub open spec fn padded(x: int) -> Seq<char> {
    if x < 10 {
        "0"@ + decimal(x)
    } else {
        decimal(x)
    }
}

/// Division that rounds toward zero, as Rust's `/` does.
pub open spec fn tdiv(a: int, b: int) -> int {
    if a >= 0 {
        a / b
    } else {
        -((-a) / b)
    }
}

/// The remainder that goes with `tdiv`, as Rust's `%` gives it.
pub open spec fn trem(a: int, b: int) -> int {
    a - b * tdiv(a, b)
}

/// The time a job has used, as `HH:MM:SS`: up to its finish, or up to `now`
/// while it has none; `00:00:00` before it starts.
pub open spec fn used_text(start: i64, finish: i64, now: i64) -> Seq<char> {
    if start == -1 {
        "00:00:00"@
    } else {
        let d = (if finish != -1 {
            finish
        } else {
            now
        }) - start;
        padded(tdiv(tdiv(d, 60), 60)) + ":"@ + padded(trem(tdiv(d, 60), 60)) + ":"@ + padded(
            trem(d, 60),
        )
    }
}

/// The mark shown for a status code: a letter, or an emoji.
pub open spec fn mark_of(status: i32, noemoji: bool) -> Seq<char> {
    if noemoji {
        if status == 0 {
            " x"@
        } else if status == 1 {
            " o"@
        } else if status == 2 {
            " e"@
        } else if status == 3 {
            " c"@
        } else {
            " r"@
        }
    } else {
        if status == 0 {
            "\u{1F610}"@
        } else if status == 1 {
            "\u{1F601}"@
        } else if status == 2 {
            "\u{1F628}"@
        } else if status == 3 {
            "\u{1F921}"@
        } else {
            "\u{1F975}"@
        }
    }
}

/// The first line of a job: mark, id, command, and the executor where the
/// job has one.
pub open spec fn head_text(c: Commands, noemoji: bool) -> Seq<char> {
    let base = mark_of(c.status, noemoji) + " | "@ + decimal(c.id as int) + " | "@ + c.command@;
    if is_no_executor(c.executor@) {
        base
    } else {
        base + " | "@ + c.executor@
    }
}

/// A time as shown: its text, or `00-00 00:00` where it is unset.
pub open spec fn stamp_text(ts: i64, text: Seq<char>) -> Seq<char> {
    if ts == -1 {
        "00-00 00:00"@
    } else {
        text
    }
}

/// The second line of a job: when it was added, started and finished, and
/// the time it used. `add`, `start` and `finish` are the texts of its three
/// times in local time.
pub open spec fn detail_text(
    c: Commands,
    now: i64,
    add: Seq<char>,
    start: Seq<char>,
    finish: Seq<char>,
) -> Seq<char> {
    "---| add("@ + stamp_text(c.add_time, add) + ") | start("@ + stamp_text(c.start_time, start)
        + ") | finish("@ + stamp_text(c.finish_time, finish) + ") | used("@ + used_text(
        c.start_time,
        c.finish_time,
        now,
    ) + ")"@
}

fn digit_text(d: u128) -> (r: &'static str)
    requires
        d < 10,
    ensures
        r@ == digit_str(d as nat),
{
    if d == 0 {
        "0"
    } else if d == 1 {
        "1"
    } else if d == 2 {
        "2"
    } else if d == 3 {
        "3"
    } else if d == 4 {
        "4"
    } else if d == 5 {
        "5"
    } else if d == 6 {
        "6"
    } else if d == 7 {
        "7"
    } else if d == 8 {
        "8"
    } else {
        "9"
    }
}

fn push_digits(r: &mut String, n: u128)
    ensures
        final(r)@ == old(r)@ + digits(n as nat),
    decreases n,
{
    if n >= 10 {
        push_digits(r, n / 10);
    }
    r.append(digit_text(n % 10));
    proof {
        if n >= 10 {
            assert(final(r)@ =~= old(r)@ + digits(n as nat));
        } else {
            assert(n % 10 == n);
        }
    }
}

fn push_decimal(r: &mut String, x: i128)
    requires
        x > i128::MIN,
    ensures
        final(r)@ == old(r)@ + decimal(x as int),
{
    if x < 0 {
        r.append("-");
        push_digits(r, (-x) as u128);
        assert(final(r)@ =~= old(r)@ + decimal(x as int));
    } else {
        push_digits(r, x as u128);
    }
}

fn push_padded(r: &mut String, x: i128)
    requires
        x > i128::MIN,
    ensures
        final(r)@ == old(r)@ + padded(x as int),
{
    if x < 10 {
        r.append("0");
    }
    push_decimal(r, x);
    assert(final(r)@ =~= old(r)@ + padded(x as int));
}

/// The time a job has used, as `HH:MM:SS` with each part at least two
/// digits: from its start to its finish, or to `now` while it has none;
/// `00:00:00` where it has not started (`start` is `-1`).
pub fn used_time(start: i64, finish: i64, now: i64) -> (r: String)
    ensures
        r@ == used_text(start, finish, now),
{
    if start == -1 {
        return "00:00:00".to_owned();
    }
    let end: i64 = if finish != -1 {
        finish
    } else {
        now
    };
    let d: i128 = end as i128 - start as i128;
    let m: i128 = if d < 0 {
        -d
    } else {
        d
    };
    let mins = m / 60;
    let (h, mi, s): (i128, i128, i128) = if d < 0 {
        (-(mins / 60), -(mins % 60), -(m % 60))
    } else {
        (mins / 60, mins % 60, m % 60)
    };
    proof {
        let dd = d as int;
        assert(tdiv(dd, 60) == if d < 0 {
            -mins
        } else {
            mins as int
        });
        assert(h == tdiv(tdiv(dd, 60), 60));
        assert(mi == trem(tdiv(dd, 60), 60));
        assert(s == trem(dd, 60));
    }
    let mut r = String::new();
    push_padded(&mut r, h);
    r.append(":");
    push_padded(&mut r, mi);
    r.append(":");
    push_padded(&mut r, s);
    assert(r@ =~= used_text(start, finish, now));
    r
}

/// The mark shown for a status code: ` x` waiting, ` o` finished, ` e`
/// errored, ` c` cancelled, ` r` running; or an emoji for each.
pub fn status_mark(status: i32, noemoji: bool) -> (r: &'static str)
    ensures
        r@ == mark_of(status, noemoji),
{
    if noemoji {
        if status == 0 {
            " x"
        } else if status == 1 {
            " o"
        } else if status == 2 {
            " e"
        } else if status == 3 {
            " c"
        } else {
            " r"
        }
    } else {
        if status == 0 {
            "\u{1F610}"
        } else if status == 1 {
            "\u{1F601}"
        } else if status == 2 {
            "\u{1F628}"
        } else if status == 3 {
            "\u{1F921}"
        } else {
            "\u{1F975}"
        }
    }
}

/// The first line shown for a job.
pub fn head_line(c: &Commands, noemoji: bool) -> (r: String)
    ensures
        r@ == head_text(*c, noemoji),
{
    let mut r = status_mark(c.status, noemoji).to_owned();
    r.append(" | ");
    push_decimal(&mut r, c.id as i128);
    r.append(" | ");
    r.append(c.command.as_str());
    if !no_executor(c.executor.as_str()) {
        r.append(" | ");
        r.append(c.executor.as_str());
    }
    assert(r@ =~= head_text(*c, noemoji));
    r
}

fn push_stamp(r: &mut String, ts: i64, text: &str)
    ensures
        final(r)@ == old(r)@ + stamp_text(ts, text@),
{
    if ts == -1 {
        r.append("00-00 00:00");
    } else {
        r.append(text);
    }
}

/// The second line shown for a job; `add`, `start` and `finish` are the
/// local-time texts of its three times.
pub fn detail_line(c: &Commands, now: i64, add: &str, start: &str, finish: &str) -> (r: String)
    ensures
        r@ == detail_text(*c, now, add@, start@, finish@),
{
    let mut r = "---| add(".to_owned();
    push_stamp(&mut r, c.add_time, add);
    r.append(") | start(");
    push_stamp(&mut r, c.start_time, start);
    r.append(") | finish(");
    push_stamp(&mut r, c.finish_time, finish);
    r.append(") | used(");
    let used = used_time(c.start_time, c.finish_time, now);
    r.append(used.as_str());
    r.append(")");
    assert(r@ =~= detail_text(*c, now, add@, start@, finish@));
    r
}

/// The listing of the jobs: two lines for each. `stamps` holds, for each
/// job, the local-time texts of its add, start and finish times.
pub fn list(rows: &Vec<Commands>, noemoji: bool, now: i64, stamps: &Vec<(String, String, String)>) -> (r:
    Vec<(String, String)>)
    requires
        stamps@.len() == rows@.len(),
    ensures
        r@.len() == rows@.len(),
        forall|i: int|
            0 <= i < rows@.len() ==> (#[trigger] r@[i]).0@ == head_text(rows@[i], noemoji)
                && r@[i].1@ == detail_text(
                rows@[i],
                now,
                stamps@[i].0@,
                stamps@[i].1@,
                stamps@[i].2@,
            ),
{
    let mut r: Vec<(String, String)> = Vec::new();
    let mut i: usize = 0;
    while i < rows.len()
        invariant
            stamps@.len() == rows@.len(),
            0 <= i <= rows@.len(),
            r@.len() == i,
            forall|k: int|
                0 <= k < i ==> (#[trigger] r@[k]).0@ == head_text(rows@[k], noemoji) && r@[k].1@
                    == detail_text(rows@[k], now, stamps@[k].0@, stamps@[k].1@, stamps@[k].2@),
        decreases rows@.len() - i,
    {
        let head = head_line(&rows[i], noemoji);
        let detail = detail_line(
            &rows[i],
            now,
            stamps[i].0.as_str(),
            stamps[i].1.as_str(),
            stamps[i].2.as_str(),
        );
        r.push((head, detail));
        i = i + 1;
    }
    r
}

/// The indices, ascending, of the jobs whose command holds `name`.
pub fn grep(rows: &Vec<Commands>, name: &str) -> (r: Vec<usize>)
    ensures
        forall|a: int, b: int| 0 <= a < b < r@.len() ==> r@[a] < r@[b],
        forall|k: int|
            0 <= k < r@.len() ==> #[trigger] r@[k] < rows@.len() && has_infix(
                rows@[r@[k] as int].command@,
                name@,
            ),
        forall|i: int|
            0 <= i < rows@.len() && has_infix(#[trigger] rows@[i].command@, name@) ==> r@.contains(
                i as usize,
            ),
{
    let pat = chars_of(name);
    let mut r: Vec<usize> = Vec::new();
    let mut i: usize = 0;
    while i < rows.len()
        invariant
            pat@ == name@,
            0 <= i <= rows@.len(),
            forall|a: int, b: int| 0 <= a < b < r@.len() ==> r@[a] < r@[b],
            forall|k: int| 0 <= k < r@.len() ==> #[trigger] r@[k] < i,
            forall|k: int|
                0 <= k < r@.len() ==> has_infix(rows@[#[trigger] r@[k] as int].command@, name@),
            forall|j: int|
                0 <= j < i && has_infix(#[trigger] rows@[j].command@, name@) ==> r@.contains(
                    j as usize,
                ),
        decreases rows@.len() - i,
    {
        let cs = chars_of(rows[i].command.as_str());
        let found = span_contains(&cs, 0, cs.len(), pat.as_slice());
        assert(cs@.subrange(0, cs@.len() as int) =~= cs@);
        if found {
            let ghost prev = r@;
            r.push(i);
            assert forall|j: int|
                0 <= j <= i && has_infix(#[trigger] rows@[j].command@, name@) implies r@.contains(
                j as usize,
            ) by {
                if j < i {
                    let w = choose|w: int| 0 <= w < prev.len() && prev[w] == j as usize;
                    assert(r@[w] == j as usize);
                } else {
                    assert(r@[prev.len() as int] == i);
                }
            }
        }
        i = i + 1;
    }
    r
}

} // verus!
