//! The reading of user input: job ids and id ranges, the insertion target of
//! a new job, the script that a command names, and the answer to the quit
//! prompt.
use vstd::prelude::*;
use crate::classify::{chars_of, lemma_split_nonempty, split_on, split_spaces};
use crate::executor::{split_command, split_text, texts};

verus! {

/// Why a new job's position was refused.
#[derive(Clone, Copy, Debug, PartialEq, Eq, Structural)]
pub enum AddError {
    /// Both a `before` and an `after` target were given.
    BothTargets,
    /// The target position is below 1, or past the largest id.
    InvalidTarget,
}

/// An ASCII decimal digit.
pub open spec fn is_digit(c: char) -> bool {
    '0' <= c && c <= '9'
}

/// The value of a string of decimal digits.
pub open spec fn decimal_value(s: Seq<char>) -> int
    decreases s.len(),
{
    if s.len() == 0 {
        0
    } else {
        decimal_value(s.drop_last()) * 10 + (s.last() as int - '0' as int)
    }
}

/// The digits of an id: the text without one leading `+`.
pub open spec fn unsigned_part(s: Seq<char>) -> Seq<char> {
    if s.len() > 0 && s[0] == '+' {
        s.drop_first()
    } else {
        s
    }
}

/// The id that a text spells: an optional `+` and one or more decimal digits
/// whose value fits in an `i32`.
pub open spec fn parsed_id(s: Seq<char>) -> Option<i32> {
    let d = unsigned_part(s);
    if d.len() > 0 && (forall|i: int| 0 <= i < d.len() ==> is_digit(#[trigger] d[i]))
        && decimal_value(d) <= i32::MAX {
        Some(decimal_value(d) as i32)
    } else {
        None
    }
}

/// The inclusive id range that a text gives: `a-b` with `a < b`, or a single
/// id `a` standing for `a-a`. `None` for any other text.
pub open spec fn range_of(s: Seq<char>) -> Option<(i32, i32)> {
    if s.contains('-') {
        let parts = split_on(s, '-');
        if parts.len() == 2 && parsed_id(parts[0]) is Some && parsed_id(parts[1]) is Some
            && parsed_id(parts[0])->0 < parsed_id(parts[1])->0 {
            Some((parsed_id(parts[0])->0, parsed_id(parts[1])->0))
        } else {
            None
        }
    } else {
        match parsed_id(s) {
            Some(id) => Some((id, id)),
            None => None,
        }
    }
}

/// Where a new job goes: `-1` marks a target that was not given; `before = B`
/// asks for position `B`, `after = A` for position `A + 1`, neither for the
/// end of the queue.
pub open spec fn target_of(before: i32, after: i32) -> Result<Option<i32>, AddError> {
    if before == -1 && after == -1 {
        Ok(None)
    } else if before != -1 && after != -1 {
        Err(AddError::BothTargets)
    } else if before != -1 {
        if before < 1 {
            Err(AddError::InvalidTarget)
        } else {
            Ok(Some(before))
        }
    } else if after < 0 || after == i32::MAX {
        Err(AddError::InvalidTarget)
    } else {
        Ok(Some((after + 1) as i32))
    }
}

/// The names of interpreters that a command may start with before its script.
pub open spec fn is_interpreter(t: Seq<char>) -> bool {
    ||| t == seq!['p', 'y', 't', 'h', 'o', 'n', '3']
    ||| t == seq!['p', 'y', 't', 'h', 'o', 'n']
    ||| t == seq!['b', 'a', 's', 'h']
    ||| t == seq!['z', 's', 'h']
    ||| t == seq!['f', 'i', 's', 'h']
}

/// The parts joined with `sep` between each two.
pub open spec fn join(ts: Seq<Seq<char>>, sep: char) -> Seq<char>
    decreases ts.len(),
{
    if ts.len() == 0 {
        Seq::empty()
    } else if ts.len() == 1 {
        ts[0]
    } else {
        join(ts.drop_last(), sep).push(sep) + ts.last()
    }
}

/// The script file a command names and the command to keep for it: the
/// first token and the whole command, or, after an interpreter name, the
/// second token and the command from there on.
pub open spec fn script_of(c: Seq<char>) -> (Seq<char>, Seq<char>) {
    let ts = split_spaces(c);
    if !is_interpreter(ts[0]) {
        (ts[0], c)
    } else {
        (ts[1], join(ts.drop_first(), ' '))
    }
}

/// The answers to the quit prompt that mean yes.
pub open spec fn is_quit_answer(s: Seq<char>) -> bool {
    ||| s == seq!['Y']
    ||| s == seq!['y']
    ||| s == seq!['Y', 'e', 's']
    ||| s == seq!['Y', 'E', 'S']
    ||| s == seq!['y', 'e', 's']
    ||| s == seq!['Q']
    ||| s == seq!['q']
}

proof fn lemma_decimal_nonneg(s: Seq<char>)
    requires
        forall|i: int| 0 <= i < s.len() ==> is_digit(#[trigger] s[i]),
    ensures
        decimal_value(s) >= 0,
    decreases s.len(),
{
    if s.len() > 0 {
        lemma_decimal_nonneg(s.drop_last());
    }
}

/// A longer run of digits is worth at least as much as its prefix.
proof fn lemma_decimal_grows(s: Seq<char>, i: int)
    requires
        forall|j: int| 0 <= j < s.len() ==> is_digit(#[trigger] s[j]),
        0 <= i <= s.len(),
    ensures
        decimal_value(s.subrange(0, i)) <= decimal_value(s),
    decreases s.len(),
{
    if i < s.len() {
        let t = s.drop_last();
        lemma_decimal_nonneg(t);
        if i < t.len() {
            lemma_decimal_grows(t, i);
            assert(t.subrange(0, i) =~= s.subrange(0, i));
        } else {
            assert(t =~= s.subrange(0, i));
        }
    } else {
        assert(s.subrange(0, i) =~= s);
    }
}

/// Reads an id: an optional `+` and decimal digits whose value fits in an
/// `i32`. Any other text gives `None`.
pub fn parse_id(s: &str) -> (r: Option<i32>)
    ensures
        r == parsed_id(s@),
{
    let cs = chars_of(s);
    let n = cs.len();
    let start: usize = if n > 0 && cs[0] == '+' {
        1
    } else {
        0
    };
    let ghost d = unsigned_part(s@);
    assert(d =~= cs@.subrange(start as int, n as int));
    if start == n {
        return None;
    }
    let mut acc: i64 = 0;
    let mut i: usize = start;
    while i < n
        invariant
            cs@ == s@,
            n == cs@.len(),
            d == cs@.subrange(start as int, n as int),
            d == unsigned_part(s@),
            start <= i <= n,
            forall|j: int| 0 <= j < i - start ==> is_digit(#[trigger] d[j]),
            acc == decimal_value(d.subrange(0, i - start)),
            0 <= acc <= i32::MAX,
        decreases n - i,
    {
        let c = cs[i];
        assert(d[i - start] == c);
        if !('0' <= c && c <= '9') {
            assert(!is_digit(d[i - start]));
            assert(!(forall|j: int| 0 <= j < d.len() ==> is_digit(#[trigger] d[j])));
            return None;
        }
        let ghost prev = d.subrange(0, i - start);
        acc = acc * 10 + (c as i64 - '0' as i64);
        i = i + 1;
        proof {
            let cur = d.subrange(0, i - start);
            assert(cur.drop_last() =~= prev);
            assert(cur.last() == c);
            assert(decimal_value(cur) == decimal_value(prev) * 10 + (c as int - '0' as int));
        }
        if acc > i32::MAX as i64 {
            proof {
                if forall|j: int| 0 <= j < d.len() ==> is_digit(#[trigger] d[j]) {
                    lemma_decimal_grows(d, i - start);
                }
            }
            return None;
        }
    }
    assert(d.subrange(0, n - start) =~= d);
    Some(acc as i32)
}

/// Whether the text holds the character `c`.
fn has_char(s: &str, c: char) -> (r: bool)
    ensures
        r == s@.contains(c),
{
    let cs = chars_of(s);
    let mut i: usize = 0;
    while i < cs.len()
        invariant
            cs@ == s@,
            0 <= i <= cs@.len(),
            forall|j: int| 0 <= j < i ==> cs@[j] != c,
        decreases cs@.len() - i,
    {
        if cs[i] == c {
            return true;
        }
        i = i + 1;
    }
    false
}

/// Reads the ids that a remove or cancel applies to: `a-b` with `a < b` for
/// the ids from `a` to `b`, or a single id `a`. `None` for any other text,
/// which the user is told to write as `a-b`.
pub fn id_range(s: &str) -> (r: Option<(i32, i32)>)
    ensures
        r == range_of(s@),
{
    if has_char(s, '-') {
        let parts = split_text(s, '-');
        if parts.len() != 2 {
            return None;
        }
        assert(parts@[0]@ == split_on(s@, '-')[0]);
        assert(parts@[1]@ == split_on(s@, '-')[1]);
        let a = parse_id(parts[0].as_str());
        let b = parse_id(parts[1].as_str());
        match (a, b) {
            (Some(a), Some(b)) => if a < b {
                Some((a, b))
            } else {
                None
            },
            _ => None,
        }
    } else {
        match parse_id(s) {
            Some(id) => Some((id, id)),
            None => None,
        }
    }
}

/// Decides where a new job goes from the `before` and `after` targets, `-1`
/// marking one that was not given: `Ok(None)` for the end of the queue,
/// `Ok(Some(p))` for position `p`. Giving both is refused, and so is a
/// position below 1.
pub fn insertion_target(before: i32, after: i32) -> (r: Result<Option<i32>, AddError>)
    ensures
        r == target_of(before, after),
{
    if before == -1 && after == -1 {
        Ok(None)
    } else if before != -1 && after != -1 {
        Err(AddError::BothTargets)
    } else if before != -1 {
        if before < 1 {
            Err(AddError::InvalidTarget)
        } else {
            Ok(Some(before))
        }
    } else if after < 0 || after == i32::MAX {
        Err(AddError::InvalidTarget)
    } else {
        Ok(Some(after + 1))
    }
}

/// A single split part is the whole text.
proof fn lemma_split_single(s: Seq<char>, sep: char)
    ensures
        split_on(s, sep).len() == 1 ==> split_on(s, sep)[0] == s,
    decreases s.len(),
{
    if s.len() > 0 {
        lemma_split_single(s.drop_last(), sep);
        lemma_split_nonempty(s.drop_last(), sep);
        assert(s.drop_last().push(s.last()) =~= s);
    } else {
        assert(split_on(s, sep)[0] =~= s);
    }
}

/// Whether a token names an interpreter.
fn interpreter_name(t: &str) -> (r: bool)
    ensures
        r == is_interpreter(t@),
{
    let cs = chars_of(t);
    let n = cs.len();
    let r = if n == 7 {
        cs[0] == 'p' && cs[1] == 'y' && cs[2] == 't' && cs[3] == 'h' && cs[4] == 'o' && cs[5]
            == 'n' && cs[6] == '3'
    } else if n == 6 {
        cs[0] == 'p' && cs[1] == 'y' && cs[2] == 't' && cs[3] == 'h' && cs[4] == 'o' && cs[5]
            == 'n'
    } else if n == 4 {
        (cs[0] == 'b' && cs[1] == 'a' && cs[2] == 's' && cs[3] == 'h') || (cs[0] == 'f' && cs[1]
            == 'i' && cs[2] == 's' && cs[3] == 'h')
    } else if n == 3 {
        cs[0] == 'z' && cs[1] == 's' && cs[2] == 'h'
    } else {
        false
    };
    proof {
        if r {
            if n == 7 {
                assert(t@ =~= seq!['p', 'y', 't', 'h', 'o', 'n', '3']);
            } else if n == 6 {
                assert(t@ =~= seq!['p', 'y', 't', 'h', 'o', 'n']);
            } else if n == 4 && cs@[0] == 'b' {
                assert(t@ =~= seq!['b', 'a', 's', 'h']);
            } else if n == 4 {
                assert(t@ =~= seq!['f', 'i', 's', 'h']);
            } else {
                assert(t@ =~= seq!['z', 's', 'h']);
            }
        }
    }
    r
}

/// The tokens from index `from` on, joined with a space between each two.
pub fn join_tokens(ts: &Vec<String>, from: usize) -> (r: String)
    requires
        from <= ts@.len(),
    ensures
        r@ == join(texts(ts@).subrange(from as int, ts@.len() as int), ' '),
{
    let mut r = String::new();
    let mut i: usize = from;
    let ghost all = texts(ts@);
    proof {
        reveal_strlit(" ");
    }
    while i < ts.len()
        invariant
            from <= i <= ts@.len(),
            all == texts(ts@),
            r@ == join(all.subrange(from as int, i as int), ' '),
        decreases ts@.len() - i,
    {
        let ghost prev = all.subrange(from as int, i as int);
        let ghost next = all.subrange(from as int, i + 1);
        assert(next.drop_last() =~= prev);
        if i > from {
            r.append(" ");
        }
        r.append(ts[i].as_str());
        proof {
            if i == from {
                assert(r@ =~= next[0]);
            } else {
                reveal_strlit(" ");
                assert(" "@ == seq![' ']);
                assert(r@ =~= join(prev, ' ').push(' ') + next.last());
            }
        }
        i = i + 1;
    }
    r
}

/// For a command that holds a dot, the script file it names and the command
/// to keep once that file is found: the first token and the whole command;
/// or, where the first token is an interpreter (`python3`, `python`, `bash`,
/// `zsh`, `fish`), the second token and the command from that token on.
/// `None` for a command without a dot, which is kept as it stands.
pub fn script_of_command(command: &str) -> (r: Option<(String, String)>)
    ensures
        match r {
            Some(found) => {
                &&& command@.contains('.')
                &&& found.0@ == script_of(command@).0
                &&& found.1@ == script_of(command@).1
            },
            None => !command@.contains('.'),
        },
{
    if !has_char(command, '.') {
        return None;
    }
    let tokens = split_command(command);
    proof {
        lemma_split_nonempty(command@, ' ');
        lemma_split_single(command@, ' ');
    }
    assert(tokens@[0]@ == split_spaces(command@)[0]);
    if !interpreter_name(tokens[0].as_str()) {
        Some((tokens[0].clone(), command.to_owned()))
    } else {
        proof {
            if tokens@.len() == 1 {
                assert(split_spaces(command@)[0] == command@);
                let w = choose|w: int| 0 <= w < command@.len() && command@[w] == '.';
                assert(command@[w] == '.');
            }
        }
        let file = tokens[1].clone();
        assert(file@ == split_spaces(command@)[1]);
        let rest = join_tokens(&tokens, 1);
        assert(texts(tokens@).subrange(1, tokens@.len() as int) =~= split_spaces(command@).drop_first());
        Some((file, rest))
    }
}

/// The command prefixed with the directory it is to run from.
pub fn in_dir(dir: &str, rest: &str) -> (r: String)
    ensures
        r@ == dir@ + seq!['/'] + rest@,
{
    proof {
        reveal_strlit("/");
    }
    let mut r = dir.to_owned();
    r.append("/");
    r.append(rest);
    assert("/"@ == seq!['/']);
    r
}

/// Whether an answer to the quit prompt, with surrounding blanks already
/// removed, means yes: `Y`, `y`, `Yes`, `YES`, `yes`, `Q` or `q`.
pub fn quit_answer(s: &str) -> (r: bool)
    ensures
        r == is_quit_answer(s@),
{
    let cs = chars_of(s);
    let n = cs.len();
    let r = if n == 1 {
        cs[0] == 'Y' || cs[0] == 'y' || cs[0] == 'Q' || cs[0] == 'q'
    } else if n == 3 {
        (cs[0] == 'Y' && cs[1] == 'e' && cs[2] == 's') || (cs[0] == 'Y' && cs[1] == 'E' && cs[2]
            == 'S') || (cs[0] == 'y' && cs[1] == 'e' && cs[2] == 's')
    } else {
        false
    };
    proof {
        if n == 1 {
            assert(s@ =~= seq![cs@[0]]);
        } else if n == 3 {
            assert(s@ =~= seq![cs@[0], cs@[1], cs@[2]]);
        }
    }
    r
}

} // verus!
