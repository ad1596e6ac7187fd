//! Characters and lines: what the board readers need of strings.

use vstd::prelude::*;

verus! {

/// The characters of `s`, in order.
pub fn chars_of(s: &str) -> (v: Vec<char>)
    ensures
        v@ == s@,
{
    let mut v: Vec<char> = Vec::new();
    for c in it: s.chars()
        invariant
            v@ == it.seq().take(it.index() as int),
            it.seq() == s@,
    {
        v.push(c);
    }
    v
}

/// The length of the first line of `s`: the index of its first newline, or
/// its length when it has none.
pub open spec fn nl_index(s: Seq<char>) -> nat
    decreases s.len(),
{
    if s.len() == 0 {
        0
    } else if s[0] == '\n' {
        0
    } else {
        1 + nl_index(s.drop_first())
    }
}

/// The lines of `s` up to its first empty line (or its end): how a map is
/// read from the head of a board file.
pub open spec fn map_lines(s: Seq<char>) -> Seq<Seq<char>>
    decreases s.len(),
{
    let k = nl_index(s);
    if s.len() == 0 || k == 0 {
        Seq::empty()
    } else if k < s.len() {
        seq![s.take(k as int)] + map_lines(s.skip((k + 1) as int))
    } else {
        seq![s]
    }
}

/// All lines of `s`: the pieces between newlines, without a last empty piece
/// after a final newline.
pub open spec fn all_lines(s: Seq<char>) -> Seq<Seq<char>>
    decreases s.len(),
{
    let k = nl_index(s);
    if s.len() == 0 {
        Seq::empty()
    } else if k < s.len() {
        seq![s.take(k as int)] + all_lines(s.skip((k + 1) as int))
    } else {
        seq![s]
    }
}

/// The first newline of `s` is at `m` (or `s` has none and `m` is its
/// length) when the characters before `m` are no newlines.
pub proof fn lemma_nl_index(s: Seq<char>, m: nat)
    requires
        m <= s.len(),
        forall|t: int| 0 <= t < m ==> s[t] != '\n',
        m == s.len() || s[m as int] == '\n',
    ensures
        nl_index(s) == m,
    decreases m,
{
    if m > 0 {
        lemma_nl_index(s.drop_first(), (m - 1) as nat);
    }
}

/// A line is never longer than what it is cut from, and holds no newline.
pub proof fn lemma_nl_index_bound(s: Seq<char>)
    ensures
        nl_index(s) <= s.len(),
        forall|t: int| 0 <= t < nl_index(s) ==> s[t] != '\n',
        nl_index(s) < s.len() ==> s[nl_index(s) as int] == '\n',
    decreases s.len(),
{
    if s.len() > 0 && s[0] != '\n' {
        lemma_nl_index_bound(s.drop_first());
        assert forall|t: int| 0 <= t < nl_index(s) implies s[t] != '\n' by {
            if t > 0 {
                assert(s[t] == s.drop_first()[t - 1]);
            }
        }
    }
}

/// The lines of `s`, as `all_lines` cuts them.
pub fn split_lines(s: &str) -> (v: Vec<Vec<char>>)
    ensures
        v@.len() == all_lines(s@).len(),
        forall|i: int| 0 <= i < v@.len() ==> #[trigger] v@[i]@ == all_lines(s@)[i],
{
    let cs = chars_of(s);
    let n = cs.len();
    let ghost ls = all_lines(cs@);
    let mut out: Vec<Vec<char>> = Vec::new();
    let ghost mut done: Seq<Seq<char>> = Seq::empty();
    let mut i: usize = 0;
    proof {
        assert(cs@.skip(0) =~= cs@);
    }
    while i < n
        invariant
            n == cs@.len(),
            cs@ == s@,
            i <= n,
            ls == all_lines(cs@),
            ls == done + all_lines(cs@.skip(i as int)),
            out@.len() == done.len(),
            forall|r: int| 0 <= r < done.len() ==> #[trigger] out@[r]@ == done[r],
        decreases n - i,
    {
        let start = i;
        let ghost rest = cs@.skip(start as int);
        let ghost k = nl_index(rest);
        proof {
            lemma_nl_index_bound(rest);
        }
        let mut line: Vec<char> = Vec::new();
        while i < n && cs[i] != '\n'
            invariant
                n == cs@.len(),
                start <= i <= n,
                start < n,
                rest == cs@.skip(start as int),
                k == nl_index(rest),
                k <= rest.len(),
                k < rest.len() ==> rest[k as int] == '\n',
                forall|t: int| start <= t < i ==> cs@[t] != '\n',
                i - start <= k,
                line@ == rest.take(k as int).take(i - start),
            decreases n - i,
        {
            proof {
                assert(rest[i - start] == cs@[i as int]);
            }
            line.push(cs[i]);
            proof {
                assert(line@ =~= rest.take(k as int).take(i + 1 - start));
            }
            i += 1;
        }
        proof {
            lemma_nl_index(rest, (i - start) as nat);
            let l = rest.take(k as int);
            assert(line@ =~= l);
            done = done.push(l);
            if i < n {
                assert(rest.skip((k + 1) as int) =~= cs@.skip(i + 1));
                assert(all_lines(rest) == seq![l] + all_lines(rest.skip((k + 1) as int)));
                assert(ls =~= done + all_lines(cs@.skip(i + 1)));
            } else {
                assert(cs@.skip(i as int) =~= Seq::<char>::empty());
                assert(rest.take(k as int) =~= rest);
                assert(all_lines(rest) == seq![l]);
                assert(ls =~= done + all_lines(cs@.skip(i as int)));
            }
        }
        out.push(line);
        if i < n {
            i += 1;
        }
    }
    proof {
        assert(cs@.skip(i as int) =~= Seq::<char>::empty());
        assert(done =~= ls);
    }
    out
}

/// Every character of the map lines of `s` is a character of `s`.
pub proof fn lemma_map_lines_chars(s: Seq<char>)
    ensures
        forall|y: int, x: int|
            0 <= y < map_lines(s).len() && 0 <= x < map_lines(s)[y].len() ==> s.contains(
                #[trigger] map_lines(s)[y][x],
            ),
    decreases s.len(),
{
    let k = nl_index(s);
    lemma_nl_index_bound(s);
    let ls = map_lines(s);
    if s.len() == 0 || k == 0 {
    } else if k < s.len() {
        let rest = s.skip((k + 1) as int);
        lemma_map_lines_chars(rest);
        assert forall|y: int, x: int| 0 <= y < ls.len() && 0 <= x < ls[y].len() implies s.contains(
            #[trigger] ls[y][x],
        ) by {
            if y == 0 {
                assert(ls[0] == s.take(k as int));
                assert(s[x] == ls[y][x]);
            } else {
                assert(ls[y] == map_lines(rest)[y - 1]);
                let c = map_lines(rest)[y - 1][x];
                assert(rest.contains(c));
                let i = choose|i: int| 0 <= i < rest.len() && rest[i] == c;
                assert(s[i + k + 1] == c);
            }
        }
    } else {
        assert(ls[0] == s);
        assert forall|y: int, x: int| 0 <= y < ls.len() && 0 <= x < ls[y].len() implies s.contains(
            #[trigger] ls[y][x],
        ) by {
            assert(s[x] == ls[y][x]);
        }
    }
}

} // verus!
