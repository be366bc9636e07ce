//! Classification of a command string by the file extensions it names, and
//! the resolution of what to launch for it.
use vstd::prelude::*;

verus! {

/// What kind of program a command runs, judged by the extensions it names.
#[derive(Clone, Copy, Debug, PartialEq, Eq, Structural)]
pub enum CommandType {
    /// A token holds a dot, but no extension that is recognised.
    Unsupported,
    /// A token names a `.sh` script.
    Shell,
    /// A token names a `.py` script.
    Python,
    /// No token holds a dot: a plain command.
    Command,
    /// A token names a `.o` or `.exe` binary.
    Binary,
}

/// The parts of `s` split at each `sep`, as `str::split` gives them: empty
/// parts included, and one empty part for an empty string.
pub open spec fn split_on(s: Seq<char>, sep: char) -> Seq<Seq<char>>
    decreases s.len(),
{
    if s.len() == 0 {
        seq![Seq::empty()]
    } else {
        let init = split_on(s.drop_last(), sep);
        if s.last() == sep {
            init.push(Seq::empty())
        } else {
            init.update(init.len() - 1, init.last().push(s.last()))
        }
    }
}

/// `pat` occurs in `t` as a contiguous part.
pub open spec fn has_infix(t: Seq<char>, pat: Seq<char>) -> bool {
    exists|p: int| 0 <= p && p + pat.len() <= t.len() && #[trigger] t.subrange(p, p + pat.len()) == pat
}

/// The kind that a single token decides, if any: `.sh` before `.py` before
/// `.o` or `.exe`.
pub open spec fn token_kind(t: Seq<char>) -> Option<CommandType> {
    if has_infix(t, seq!['.', 's', 'h']) {
        Some(CommandType::Shell)
    } else if has_infix(t, seq!['.', 'p', 'y']) {
        Some(CommandType::Python)
    } else if has_infix(t, seq!['.', 'o']) || has_infix(t, seq!['.', 'e', 'x', 'e']) {
        Some(CommandType::Binary)
    } else {
        None
    }
}

/// The kind decided by the first token, from the left, that decides one.
pub open spec fn first_kind(ts: Seq<Seq<char>>) -> Option<CommandType>
    decreases ts.len(),
{
    if ts.len() == 0 {
        None
    } else {
        match token_kind(ts[0]) {
            Some(k) => Some(k),
            None => first_kind(ts.drop_first()),
        }
    }
}

/// The kind of a whole command.
pub open spec fn command_kind(s: Seq<char>) -> CommandType {
    match first_kind(split_spaces(s)) {
        Some(k) => k,
        None => if s.contains('.') {
            CommandType::Unsupported
        } else {
            CommandType::Command
        },
    }
}

/// The tokens of `s` split at each space.
pub open spec fn split_spaces(s: Seq<char>) -> Seq<Seq<char>> {
    split_on(s, ' ')
}

/// Splitting always gives at least one part.
pub(crate) proof fn lemma_split_nonempty(s: Seq<char>, sep: char)
    ensures
        split_on(s, sep).len() >= 1,
    decreases s.len(),
{
    if s.len() > 0 {
        lemma_split_nonempty(s.drop_last(), sep);
    }
}

/// The first deciding token of a longer list is that of its prefix, if any.
proof fn lemma_first_kind_push(ts: Seq<Seq<char>>, t: Seq<char>)
    ensures
        first_kind(ts.push(t)) == match first_kind(ts) {
            Some(k) => Some(k),
            None => token_kind(t),
        },
    decreases ts.len(),
{
    if ts.len() == 0 {
        assert(ts.push(t).drop_first() =~= Seq::<Seq<char>>::empty());
    } else {
        assert(ts.push(t).drop_first() =~= ts.drop_first().push(t));
        lemma_first_kind_push(ts.drop_first(), t);
    }
}

/// The characters of `s`, one by one.
pub fn chars_of(s: &str) -> (r: Vec<char>)
    ensures
        r@ == s@,
{
    let n = s.unicode_len();
    let mut r: Vec<char> = Vec::new();
    let mut i: usize = 0;
    while i < n
        invariant
            n == s@.len(),
            0 <= i <= n,
            r@ == s@.subrange(0, i as int),
        decreases n - i,
    {
        r.push(s.get_char(i));
        i = i + 1;
        assert(r@ =~= s@.subrange(0, i as int));
    }
    assert(r@ =~= s@);
    r
}

/// Whether `pat` occurs in `cs[lo..hi]`.
pub(crate) fn span_contains(cs: &Vec<char>, lo: usize, hi: usize, pat: &[char]) -> (r: bool)
    requires
        lo <= hi <= cs@.len(),
    ensures
        r == has_infix(cs@.subrange(lo as int, hi as int), pat@),
{
    let ghost t = cs@.subrange(lo as int, hi as int);
    let m = pat.len();
    if m > hi - lo {
        assert forall|p: int| 0 <= p && p + m <= t.len() implies #[trigger] t.subrange(
            p,
            p + m,
        ) != pat@ by {}
        return false;
    }
    let last = hi - lo - m;
    let mut p: usize = 0;
    while p <= last
        invariant
            t == cs@.subrange(lo as int, hi as int),
            lo <= hi <= cs@.len(),
            m == pat@.len(),
            last == hi - lo - m,
            0 <= p <= last + 1,
            forall|q: int| 0 <= q < p ==> #[trigger] t.subrange(q, q + m) != pat@,
        decreases last + 1 - p,
    {
        let mut j: usize = 0;
        while j < m && cs[lo + p + j] == pat[j]
            invariant
                t == cs@.subrange(lo as int, hi as int),
                lo <= hi <= cs@.len(),
                m == pat@.len(),
                p <= last,
                last == hi - lo - m,
                0 <= j <= m,
                forall|i: int| 0 <= i < j ==> cs@[lo + p + i] == pat@[i],
            decreases m - j,
        {
            j = j + 1;
        }
        if j == m {
            assert(t.subrange(p as int, p + m) =~= pat@);
            return true;
        }
        assert(t.subrange(p as int, p + m)[j as int] != pat@[j as int]);
        p = p + 1;
    }
    assert forall|q: int| 0 <= q && q + m <= t.len() implies #[trigger] t.subrange(q, q + m)
        != pat@ by {
        assert(q < p);
    }
    false
}

/// The kind that the token `cs[lo..hi]` decides, if any.
fn span_kind(cs: &Vec<char>, lo: usize, hi: usize) -> (r: Option<CommandType>)
    requires
        lo <= hi <= cs@.len(),
    ensures
        r == token_kind(cs@.subrange(lo as int, hi as int)),
{
    let sh = ['.', 's', 'h'];
    let py = ['.', 'p', 'y'];
    let obj = ['.', 'o'];
    let exe = ['.', 'e', 'x', 'e'];
    assert(sh@ == seq!['.', 's', 'h']);
    assert(py@ == seq!['.', 'p', 'y']);
    assert(obj@ == seq!['.', 'o']);
    assert(exe@ == seq!['.', 'e', 'x', 'e']);
    if span_contains(cs, lo, hi, &sh) {
        Some(CommandType::Shell)
    } else if span_contains(cs, lo, hi, &py) {
        Some(CommandType::Python)
    } else if span_contains(cs, lo, hi, &obj) || span_contains(cs, lo, hi, &exe) {
        Some(CommandType::Binary)
    } else {
        None
    }
}

/// Classifies a command by the file extensions its space-separated tokens
/// name. Scanning the tokens from the left, the first token that names one
/// decides: `.sh` is a shell script, `.py` a Python script, `.o` or `.exe` a
/// binary (within one token in that order). Where no token decides, a dot
/// anywhere makes the command unsupported; with no dot it is a plain command.
pub fn command_judge(command: &str) -> (r: CommandType)
    ensures
        r == command_kind(command@),
{
    let cs = chars_of(command);
    let n = cs.len();
    let mut found: Option<CommandType> = None;
    let mut start: usize = 0;
    let mut has_dot = false;
    let mut i: usize = 0;
    proof {
        assert(cs@.subrange(0, 0) =~= Seq::<char>::empty());
    }
    while i < n
        invariant
            n == cs@.len(),
            cs@ == command@,
            0 <= start <= i <= n,
            split_on(cs@.subrange(0, i as int), ' ').len() >= 1,
            split_on(cs@.subrange(0, i as int), ' ').last() == cs@.subrange(
                start as int,
                i as int,
            ),
            found == first_kind(split_on(cs@.subrange(0, i as int), ' ').drop_last()),
            has_dot == cs@.subrange(0, i as int).contains('.'),
        decreases n - i,
    {
        let ghost prev = cs@.subrange(0, i as int);
        let ghost sp = split_on(prev, ' ');
        let ghost next = cs@.subrange(0, i + 1);
        assert(next.drop_last() =~= prev);
        assert(next.last() == cs@[i as int]);
        if cs[i] == '.' {
            has_dot = true;
            assert(next[i as int] == '.');
        } else {
            assert forall|c: char| next.contains(c) && c != cs@[i as int] implies prev.contains(
                c,
            ) by {
                let w = choose|w: int| 0 <= w < next.len() && next[w] == c;
                assert(prev[w] == c);
            }
            assert forall|c: char| prev.contains(c) implies next.contains(c) by {
                let w = choose|w: int| 0 <= w < prev.len() && prev[w] == c;
                assert(next[w] == c);
            }
        }
        if cs[i] == ' ' {
            if found.is_none() {
                found = span_kind(&cs, start, i);
            }
            proof {
                lemma_first_kind_push(sp.drop_last(), sp.last());
                assert(sp.drop_last().push(sp.last()) =~= sp);
                assert(split_on(next, ' ').drop_last() == sp);
                assert(cs@.subrange(i + 1, i + 1) =~= Seq::<char>::empty());
            }
            start = i + 1;
        } else {
            proof {
                assert(split_on(next, ' ').drop_last() =~= sp.drop_last());
                assert(cs@.subrange(start as int, i + 1) =~= cs@.subrange(
                    start as int,
                    i as int,
                ).push(cs@[i as int]));
            }
        }
        i = i + 1;
    }
    let ghost sp = split_on(cs@.subrange(0, n as int), ' ');
    assert(cs@.subrange(0, n as int) =~= cs@);
    if found.is_none() {
        found = span_kind(&cs, start, n);
    }
    proof {
        lemma_first_kind_push(sp.drop_last(), sp.last());
        assert(sp.drop_last().push(sp.last()) =~= sp);
    }
    match found {
        Some(k) => k,
        None => if has_dot {
            CommandType::Unsupported
        } else {
            CommandType::Command
        },
    }
}

} // verus!
