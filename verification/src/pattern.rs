//! Patterns: small pictures of squares around the robot, each with the moves
//! that get it safely through, read from a pattern file and matched against
//! the grid.

use vstd::prelude::*;
use vstd::wrapping::usize_specs::{wrapping_add, wrapping_sub};
use crate::path::count_of;
use crate::state::{Coord, Grid, Move, Square, cell, char_move, flipped, inb, move_from_char, rect, rock_target, square_char};
use crate::text::{all_lines, split_lines};

verus! {

/// What a square of a pattern asks of the grid.
#[derive(Clone, Copy, PartialEq, Eq, Structural, Debug)]
pub enum PatSq {
    /// Something the robot eats its way through: earth, a lambda, an open lift.
    Eat,
    /// Something the robot passes: earth, a lambda, empty space, an open lift.
    Pass,
    /// A rock or a lambda, which a rock on top rolls off to the right.
    FallR,
    /// A rock, which a rock on top rolls off to the left.
    FallL,
    /// A rock or a wall.
    Solid,
    /// A lambda.
    Lam,
    /// Empty space.
    Mt,
    /// Anything but empty space.
    NotMt,
    /// A rock.
    Boulder,
    /// Anything at all.
    Any,
}

/// Whether pattern square `ps` accepts grid square `s`.
pub open spec fn spec_mtc(ps: PatSq, s: Square) -> bool {
    match ps {
        PatSq::Eat => s == Square::Earth || s == Square::Lambda || s == Square::LiftO,
        PatSq::Pass => s == Square::Earth || s == Square::Lambda || s == Square::Empty || s
            == Square::LiftO,
        PatSq::FallR => s == Square::Rock || s == Square::Lambda,
        PatSq::Boulder | PatSq::FallL => s == Square::Rock,
        PatSq::Solid => s == Square::Rock || s == Square::Wall,
        PatSq::Lam => s == Square::Lambda,
        PatSq::Mt => s == Square::Empty,
        PatSq::NotMt => s != Square::Empty,
        PatSq::Any => true,
    }
}

/// Whether pattern square `ps` accepts grid square `s`.
pub fn mtc(ps: PatSq, s: Square) -> (b: bool)
    ensures
        b == spec_mtc(ps, s),
{
    match ps {
        PatSq::Eat => match s {
            Square::Earth | Square::Lambda | Square::LiftO => true,
            _ => false,
        },
        PatSq::Pass => match s {
            Square::Earth | Square::Lambda | Square::Empty | Square::LiftO => true,
            _ => false,
        },
        PatSq::FallR => match s {
            Square::Rock | Square::Lambda => true,
            _ => false,
        },
        PatSq::Boulder | PatSq::FallL => s == Square::Rock,
        PatSq::Solid => match s {
            Square::Rock | Square::Wall => true,
            _ => false,
        },
        PatSq::Lam => s == Square::Lambda,
        PatSq::Mt => s == Square::Empty,
        PatSq::NotMt => s != Square::Empty,
        PatSq::Any => true,
    }
}

/// The pattern square a pattern-file character stands for, if any.
pub open spec fn char_patsq(c: char) -> Option<PatSq> {
    if c == 'R' || c == 'E' {
        Some(PatSq::Eat)
    } else if c == 'P' {
        Some(PatSq::Pass)
    } else if c == '>' {
        Some(PatSq::FallR)
    } else if c == '<' {
        Some(PatSq::FallL)
    } else if c == 'S' {
        Some(PatSq::Solid)
    } else if c == '*' {
        Some(PatSq::Boulder)
    } else if c == '\\' {
        Some(PatSq::Lam)
    } else if c == '_' {
        Some(PatSq::Mt)
    } else if c == 'X' {
        Some(PatSq::NotMt)
    } else if c == '?' {
        Some(PatSq::Any)
    } else {
        None
    }
}

/// The pattern square a pattern-file character stands for.
pub fn ch_to_patsq(c: char) -> (ps: PatSq)
    requires
        char_patsq(c) is Some,
    ensures
        char_patsq(c) == Some(ps),
{
    match c {
        'R' | 'E' => PatSq::Eat,
        'P' => PatSq::Pass,
        '>' => PatSq::FallR,
        '<' => PatSq::FallL,
        'S' => PatSq::Solid,
        '*' => PatSq::Boulder,
        '\\' => PatSq::Lam,
        '_' => PatSq::Mt,
        'X' => PatSq::NotMt,
        _ => PatSq::Any,
    }
}

/// The pattern square seen in a mirror: rolling left and right swap.
pub open spec fn flipped_patsq(ps: PatSq) -> PatSq {
    match ps {
        PatSq::FallL => PatSq::FallR,
        PatSq::FallR => PatSq::FallL,
        _ => ps,
    }
}

/// The pattern square seen in a mirror. A lambda square cannot be mirrored
/// (a rock rolls off a lambda to the right only): it clears `ok`.
pub fn flip_patsq(ps: PatSq, ok: &mut bool) -> (r: PatSq)
    ensures
        r == flipped_patsq(ps),
        *final(ok) == (*old(ok) && ps != PatSq::Lam),
{
    match ps {
        PatSq::FallL => PatSq::FallR,
        PatSq::FallR => PatSq::FallL,
        PatSq::Lam => {
            *ok = false;
            PatSq::Lam
        },
        _ => ps,
    }
}

/// A pattern: its rows of squares, top row first; the row (counted from 1)
/// and column (from 0) of the robot in it; where the moves take the robot;
/// the cost of the moves; and the moves.
pub struct Pat {
    pub p: Vec<Vec<PatSq>>,
    pub off_r: usize,
    pub off_c: usize,
    pub off_r_dest: usize,
    pub off_c_dest: usize,
    pub cost: usize,
    pub cmd: Vec<Move>,
}

/// A pattern, mathematically.
pub struct PatView {
    pub p: Seq<Seq<PatSq>>,
    pub off_r: usize,
    pub off_c: usize,
    pub off_r_dest: usize,
    pub off_c_dest: usize,
    pub cost: usize,
    pub cmd: Seq<Move>,
}

impl View for Pat {
    type V = PatView;

    open spec fn view(&self) -> PatView {
        PatView {
            p: self.p@.map_values(|row: Vec<PatSq>| row@),
            off_r: self.off_r,
            off_c: self.off_c,
            off_r_dest: self.off_r_dest,
            off_c_dest: self.off_c_dest,
            cost: self.cost,
            cmd: self.cmd@,
        }
    }
}

/// Where row `r`, column `c` of a pattern lies in the grid when its robot
/// square is laid on `base` (as unsigned numbers, which wrap).
pub open spec fn ult(base: Coord, off_r: usize, off_c: usize, r: int, c: int) -> Coord {
    (
        wrapping_add(base.0, wrapping_sub(c as usize, off_c)),
        wrapping_sub(base.1, wrapping_sub(r as usize, off_r)),
    )
}

/// Every square of the pattern, laid with its robot square on `base`, lies
/// in the grid and is accepted.
pub open spec fn spec_match_offset(p: PatView, g: Seq<Seq<Square>>, base: Coord) -> bool {
    forall|r: int, c: int|
        0 <= r < p.p.len() && 0 <= c < p.p[r].len() ==> {
            let u = #[trigger] ult(base, p.off_r, p.off_c, r, c);
            inb(g, u.0 as int, u.1 as int) && spec_mtc(p.p[r][c], cell(g, u.0 as int, u.1 as int))
        }
}

/// Whether the pattern matches the grid with its robot square on `base`.
pub fn match_offset(p: &Pat, g: &Grid, base: Coord) -> (b: bool)
    requires
        rect(g@),
    ensures
        b == spec_match_offset(p@, g@, base),
{
    let (x, y) = base;
    let mut r: usize = 0;
    while r < p.p.len()
        invariant
            r <= p@.p.len(),
            rect(g@),
            base == (x, y),
            forall|rr: int, c: int|
                0 <= rr < r && 0 <= c < p@.p[rr].len() ==> {
                    let u = #[trigger] ult(base, p.off_r, p.off_c, rr, c);
                    inb(g@, u.0 as int, u.1 as int) && spec_mtc(p@.p[rr][c], cell(g@, u.0 as int, u.1 as int))
                },
        decreases p@.p.len() - r,
    {
        let row = &p.p[r];
        assert(row@ == p@.p[r as int]);
        let mut c: usize = 0;
        while c < row.len()
            invariant
                r < p@.p.len(),
                row@ == p@.p[r as int],
                c <= row@.len(),
                rect(g@),
                base == (x, y),
                forall|cc: int|
                    0 <= cc < c ==> {
                        let u = #[trigger] ult(base, p.off_r, p.off_c, r as int, cc);
                        inb(g@, u.0 as int, u.1 as int) && spec_mtc(p@.p[r as int][cc], cell(g@, u.0 as int, u.1 as int))
                    },
            decreases row@.len() - c,
        {
            let ult_x = x.wrapping_add(c.wrapping_sub(p.off_c));
            let ult_y = y.wrapping_sub(r.wrapping_sub(p.off_r));
            assert((ult_x, ult_y) == ult(base, p.off_r, p.off_c, r as int, c as int));
            if !g.contains((ult_x, ult_y)) {
                return false;
            }
            if !mtc(row[c], g.at((ult_x, ult_y))) {
                return false;
            }
            c += 1;
        }
        r += 1;
    }
    true
}

/// The grid squares under the pattern laid on `base`, one text line per
/// pattern row.
pub open spec fn show_rows(p: PatView, g: Seq<Seq<Square>>, base: Coord, n: int) -> Seq<char>
    decreases n,
{
    if n <= 0 {
        Seq::empty()
    } else {
        show_rows(p, g, base, n - 1) + Seq::new(
            p.p[n - 1].len(),
            |c: int| {
                let u = ult(base, p.off_r, p.off_c, n - 1, c);
                square_char(cell(g, u.0 as int, u.1 as int))
            },
        ).push('\n')
    }
}

/// Every square of the pattern laid on `base` lies in the grid.
pub open spec fn lies_in(p: PatView, g: Seq<Seq<Square>>, base: Coord) -> bool {
    forall|r: int, c: int|
        0 <= r < p.p.len() && 0 <= c < p.p[r].len() ==> {
            let u = #[trigger] ult(base, p.off_r, p.off_c, r, c);
            inb(g, u.0 as int, u.1 as int)
        }
}

/// The grid squares under the pattern laid on `base`, as map text: one line
/// per pattern row.
pub fn match_show(p: &Pat, g: &Grid, base: Coord) -> (s: String)
    requires
        lies_in(p@, g@, base),
    ensures
        s@ == show_rows(p@, g@, base, p@.p.len() as int),
{
    let (x, y) = base;
    let mut s = String::new();
    let mut r: usize = 0;
    while r < p.p.len()
        invariant
            r <= p@.p.len(),
            lies_in(p@, g@, base),
            base == (x, y),
            s@ == show_rows(p@, g@, base, r as int),
        decreases p@.p.len() - r,
    {
        let row = &p.p[r];
        assert(row@ == p@.p[r as int]);
        let ghost before = s@;
        let ghost line = Seq::new(
            p@.p[r as int].len(),
            |c: int| {
                let u = ult(base, p.off_r, p.off_c, r as int, c);
                square_char(cell(g@, u.0 as int, u.1 as int))
            },
        );
        let mut c: usize = 0;
        while c < row.len()
            invariant
                r < p@.p.len(),
                row@ == p@.p[r as int],
                c <= row@.len(),
                lies_in(p@, g@, base),
                base == (x, y),
                line.len() == row@.len(),
                line == Seq::new(
                    p@.p[r as int].len(),
                    |c: int| {
                        let u = ult(base, p.off_r, p.off_c, r as int, c);
                        square_char(cell(g@, u.0 as int, u.1 as int))
                    },
                ),
                s@ == before + line.take(c as int),
            decreases row@.len() - c,
        {
            let ult_x = x.wrapping_add(c.wrapping_sub(p.off_c));
            let ult_y = y.wrapping_sub(r.wrapping_sub(p.off_r));
            assert((ult_x, ult_y) == ult(base, p.off_r, p.off_c, r as int, c as int));
            assert(inb(g@, ult_x as int, ult_y as int)) by {
                assert(0 <= c < p@.p[r as int].len());
                let u = ult(base, p@.off_r, p@.off_c, r as int, c as int);
                assert(inb(g@, u.0 as int, u.1 as int));
            }
            s.append(g.at((ult_x, ult_y)).to_str());
            proof {
                assert(line.take(c + 1) =~= line.take(c as int).push(line[c as int]));
            }
            c += 1;
        }
        proof {
            reveal_strlit("\n");
            assert(line.take(c as int) =~= line);
        }
        s.append("\n");
        proof {
            assert(s@ =~= show_rows(p@, g@, base, r + 1));
        }
        r += 1;
    }
    s
}

/// A white-space character.
pub open spec fn is_ws(c: char) -> bool {
    let u = c as u32;
    (9 <= u <= 13) || u == 32 || u == 0x85 || u == 0xA0 || u == 0x1680 || (0x2000 <= u <= 0x200A)
        || u == 0x2028 || u == 0x2029 || u == 0x202F || u == 0x205F || u == 0x3000
}

/// Whether `c` is a white-space character.
fn ws(c: char) -> (b: bool)
    ensures
        b == is_ws(c),
{
    let u = c as u32;
    (9 <= u && u <= 13) || u == 32 || u == 0x85 || u == 0xA0 || u == 0x1680 || (0x2000 <= u && u
        <= 0x200A) || u == 0x2028 || u == 0x2029 || u == 0x202F || u == 0x205F || u == 0x3000
}

/// The index of the first `ch` in `l`, or its length when there is none.
pub open spec fn idx_of(l: Seq<char>, ch: char) -> nat
    decreases l.len(),
{
    if l.len() == 0 {
        0
    } else if l[0] == ch {
        0
    } else {
        1 + idx_of(l.drop_first(), ch)
    }
}

proof fn lemma_idx_of(l: Seq<char>, ch: char, m: nat)
    requires
        m <= l.len(),
        forall|t: int| 0 <= t < m ==> l[t] != ch,
        m == l.len() || l[m as int] == ch,
    ensures
        idx_of(l, ch) == m,
    decreases m,
{
    if m > 0 {
        lemma_idx_of(l.drop_first(), ch, (m - 1) as nat);
    }
}

/// The index of the first `ch` in `l`, or its length when there is none.
fn index_of(l: &Vec<char>, ch: char) -> (k: usize)
    ensures
        k == idx_of(l@, ch),
{
    let mut i: usize = 0;
    while i < l.len() && l[i] != ch
        invariant
            i <= l@.len(),
            forall|t: int| 0 <= t < i ==> l@[t] != ch,
        decreases l@.len() - i,
    {
        i += 1;
    }
    proof {
        lemma_idx_of(l@, ch, i as nat);
    }
    i
}

/// `l` without its leading white space.
pub open spec fn trim_start(l: Seq<char>) -> Seq<char>
    decreases l.len(),
{
    if l.len() > 0 && is_ws(l[0]) {
        trim_start(l.drop_first())
    } else {
        l
    }
}

/// `l` without its trailing white space.
pub open spec fn trim_end(l: Seq<char>) -> Seq<char>
    decreases l.len(),
{
    if l.len() > 0 && is_ws(l.last()) {
        trim_end(l.drop_last())
    } else {
        l
    }
}

proof fn lemma_trim_start(l: Seq<char>, m: int)
    requires
        0 <= m <= l.len(),
        forall|t: int| 0 <= t < m ==> is_ws(l[t]),
        m == l.len() || !is_ws(l[m]),
    ensures
        trim_start(l) == l.skip(m),
    decreases m,
{
    if m > 0 {
        lemma_trim_start(l.drop_first(), m - 1);
        assert(l.drop_first().skip(m - 1) =~= l.skip(m));
    } else {
        assert(l.skip(0) =~= l);
    }
}

proof fn lemma_trim_end(l: Seq<char>, m: int)
    requires
        0 <= m <= l.len(),
        forall|t: int| m <= t < l.len() ==> is_ws(l[t]),
        m == 0 || !is_ws(l[m - 1]),
    ensures
        trim_end(l) == l.take(m),
    decreases l.len() - m,
{
    if m < l.len() {
        lemma_trim_end(l.drop_last(), m);
        assert(l.drop_last().take(m) =~= l.take(m));
    } else {
        assert(l.take(m) =~= l);
    }
}

/// What is left of a pattern-file line once its comment (from the first
/// `;`) and surrounding white space are cut off.
pub open spec fn cut(raw: Seq<char>) -> Seq<char> {
    trim_end(trim_start(raw.take(idx_of(raw, ';') as int)))
}

/// The elements `lo..hi` of `l`.
fn slice_of(l: &Vec<char>, lo: usize, hi: usize) -> (v: Vec<char>)
    requires
        lo <= hi <= l@.len(),
    ensures
        v@ == l@.subrange(lo as int, hi as int),
{
    let mut v: Vec<char> = Vec::new();
    let mut i = lo;
    while i < hi
        invariant
            lo <= i <= hi <= l@.len(),
            v@ == l@.subrange(lo as int, i as int),
        decreases hi - i,
    {
        v.push(l[i]);
        proof {
            assert(v@ =~= l@.subrange(lo as int, i + 1));
        }
        i += 1;
    }
    v
}

/// Cuts the comment and the surrounding white space off a line.
fn cut_line(raw: &Vec<char>) -> (v: Vec<char>)
    ensures
        v@ == cut(raw@),
{
    let k = index_of(raw, ';');
    proof {
        lemma_idx_bound(raw@, ';');
    }
    let mut lo: usize = 0;
    while lo < k && ws(raw[lo])
        invariant
            k <= raw@.len(),
            lo <= k,
            forall|t: int| 0 <= t < lo ==> is_ws(raw@[t]),
        decreases k - lo,
    {
        lo += 1;
    }
    let ghost before = raw@.take(k as int);
    proof {
        lemma_trim_start(before, lo as int);
    }
    let mut hi: usize = k;
    while hi > lo && ws(raw[hi - 1])
        invariant
            k <= raw@.len(),
            lo <= hi <= k,
            forall|t: int| hi <= t < k ==> is_ws(raw@[t]),
        decreases hi,
    {
        hi -= 1;
    }
    proof {
        let ts = before.skip(lo as int);
        lemma_trim_end(ts, hi - lo);
        assert(ts.take(hi - lo) =~= raw@.subrange(lo as int, hi as int));
    }
    slice_of(raw, lo, hi)
}

proof fn lemma_idx_bound(l: Seq<char>, ch: char)
    ensures
        idx_of(l, ch) <= l.len(),
        forall|t: int| 0 <= t < idx_of(l, ch) ==> l[t] != ch,
        idx_of(l, ch) < l.len() ==> l[idx_of(l, ch) as int] == ch,
    decreases l.len(),
{
    if l.len() > 0 && l[0] != ch {
        lemma_idx_bound(l.drop_first(), ch);
        assert forall|t: int| 0 <= t < idx_of(l, ch) implies l[t] != ch by {
            if t > 0 {
                assert(l[t] == l.drop_first()[t - 1]);
            }
        }
    }
}

/// How many bytes the UTF-8 encoding of `c` takes.
pub open spec fn char_bytes(c: char) -> nat {
    let u = c as u32;
    if u < 0x80 {
        1
    } else if u < 0x800 {
        2
    } else if u < 0x10000 {
        3
    } else {
        4
    }
}

/// How many bytes the UTF-8 encoding of `s` takes.
pub open spec fn utf8_len(s: Seq<char>) -> nat
    decreases s.len(),
{
    if s.len() == 0 {
        0
    } else {
        utf8_len(s.drop_last()) + char_bytes(s.last())
    }
}

/// A pattern row read from a line of pattern characters.
pub open spec fn row_of(l: Seq<char>) -> Seq<PatSq> {
    l.map_values(|c: char| char_patsq(c).unwrap())
}

/// The mirror image of that row: reversed, rolling left and right swapped.
pub open spec fn frow_of(l: Seq<char>) -> Seq<PatSq> {
    Seq::new(l.len(), |i: int| flipped_patsq(char_patsq(l[l.len() - 1 - i]).unwrap()))
}

/// What the reader of a pattern file has gathered so far: the finished
/// patterns, the rows of the pattern being read and of its mirror image,
/// whether the mirror image is valid, and the robot's last known place.
pub struct PatParse {
    pub done: Seq<PatView>,
    pub rows: Seq<Seq<PatSq>>,
    pub frows: Seq<Seq<PatSq>>,
    pub flip_ok: bool,
    pub o_r: usize,
    pub o_c: usize,
}

/// The reader before the first line.
pub open spec fn parse_start() -> PatParse {
    PatParse { done: Seq::empty(), rows: Seq::empty(), frows: Seq::empty(), flip_ok: true, o_r: 0, o_c: 0 }
}

/// The moves of a command, the part of a `!` line before its first space.
pub open spec fn cmd_part(cl: Seq<char>) -> Seq<char> {
    let rest = cl.drop_first();
    rest.take(idx_of(rest, ' ') as int)
}

/// The cost field of a `!` line, between its first and second space.
pub open spec fn cost_part(cl: Seq<char>) -> Seq<char> {
    let rest = cl.drop_first();
    let r1 = rest.skip(idx_of(rest, ' ') as int + 1);
    r1.take(idx_of(r1, ' ') as int)
}

/// The patterns a `!` line closes: the one read, then its mirror image
/// unless a lambda square forbids it.
pub open spec fn closed_patterns(st: PatParse, cl: Seq<char>) -> Seq<PatView> {
    let cmd = cmd_part(cl).map_values(|c: char| char_move(c).unwrap());
    let dr = wrapping_sub(count_of(cmd, Move::D) as usize, count_of(cmd, Move::U) as usize);
    let dc = wrapping_sub(count_of(cmd, Move::R) as usize, count_of(cmd, Move::L) as usize);
    let cost = utf8_len(cost_part(cl)) as usize;
    let p1 = PatView {
        p: st.rows,
        off_r: st.o_r,
        off_c: st.o_c,
        off_r_dest: wrapping_add(st.o_r, dr),
        off_c_dest: wrapping_add(st.o_c, dc),
        cost,
        cmd,
    };
    let p2 = PatView {
        p: st.frows,
        off_r: st.o_r,
        off_c: wrapping_sub(wrapping_sub(st.rows[0].len() as usize, 1), st.o_c),
        off_r_dest: wrapping_add(st.o_r, dr),
        off_c_dest: wrapping_sub(st.o_c, dc),
        cost,
        cmd: cmd.map_values(|m: Move| flipped(m)),
    };
    if st.flip_ok {
        seq![p1, p2]
    } else {
        seq![p1]
    }
}

/// One line of a pattern file read: blank and comment lines are skipped; a
/// line of pattern characters adds a row (and notes the robot's place if it
/// holds an `R`); a `!` line closes the pattern with its moves and cost.
pub open spec fn parse_line(st: PatParse, raw: Seq<char>) -> PatParse {
    let cl = cut(raw);
    if cl.len() == 0 {
        st
    } else if cl[0] != '!' {
        let rows = st.rows.push(row_of(cl));
        let has_r = idx_of(cl, 'R') < cl.len();
        PatParse {
            rows,
            frows: st.frows.push(frow_of(cl)),
            flip_ok: st.flip_ok && !cl.contains('\\'),
            o_r: if has_r { rows.len() as usize } else { st.o_r },
            o_c: if has_r { idx_of(cl, 'R') as usize } else { st.o_c },
            ..st
        }
    } else {
        PatParse {
            done: st.done + closed_patterns(st, cl),
            rows: Seq::empty(),
            frows: Seq::empty(),
            flip_ok: true,
            ..st
        }
    }
}

/// A line the reader can take in its state: pattern characters only, or a
/// `!` line with a space after its moves, moves that name moves, a cost
/// whose size fits in a `usize`, and a pattern before it.
pub open spec fn line_ok(st: PatParse, raw: Seq<char>) -> bool {
    let cl = cut(raw);
    ||| cl.len() == 0
    ||| cl[0] != '!' && forall|i: int| 0 <= i < cl.len() ==> (#[trigger] char_patsq(cl[i])) is Some
    ||| cl[0] == '!' && idx_of(cl.drop_first(), ' ') < cl.drop_first().len() && st.rows.len() > 0
        && utf8_len(cost_part(cl)) <= usize::MAX
        && forall|i: int| 0 <= i < cmd_part(cl).len() ==> (#[trigger] char_move(cmd_part(cl)[i])) is Some
}

/// The reader after the lines `ls`.
pub open spec fn parse_lines(st: PatParse, ls: Seq<Seq<char>>) -> PatParse
    decreases ls.len(),
{
    if ls.len() == 0 {
        st
    } else {
        parse_lines(parse_line(st, ls[0]), ls.drop_first())
    }
}

/// Every line of `ls` can be taken in turn.
pub open spec fn lines_ok(st: PatParse, ls: Seq<Seq<char>>) -> bool
    decreases ls.len(),
{
    ls.len() == 0 || (line_ok(st, ls[0]) && lines_ok(parse_line(st, ls[0]), ls.drop_first()))
}

/// A pattern file the reader takes without failing.
pub open spec fn valid_patterns_text(t: Seq<char>) -> bool {
    lines_ok(parse_start(), all_lines(t))
}

proof fn lemma_utf8_prefix(s: Seq<char>, i: int)
    requires
        0 <= i <= s.len(),
    ensures
        utf8_len(s.take(i)) <= utf8_len(s),
    decreases s.len() - i,
{
    if i < s.len() {
        lemma_utf8_prefix(s, i + 1);
        assert(s.take(i + 1).drop_last() =~= s.take(i));
    } else {
        assert(s.take(i) =~= s);
    }
}

/// How many bytes the UTF-8 encoding of `l` takes.
fn utf8_size(l: &Vec<char>) -> (n: usize)
    requires
        utf8_len(l@) <= usize::MAX,
    ensures
        n == utf8_len(l@),
{
    let mut n: usize = 0;
    let mut i: usize = 0;
    while i < l.len()
        invariant
            i <= l@.len(),
            utf8_len(l@) <= usize::MAX,
            n == utf8_len(l@.take(i as int)),
        decreases l@.len() - i,
    {
        proof {
            assert(l@.take(i + 1).drop_last() =~= l@.take(i as int));
            lemma_utf8_prefix(l@, i + 1);
        }
        let u = l[i] as u32;
        let b: usize = if u < 0x80 {
            1
        } else if u < 0x800 {
            2
        } else if u < 0x10000 {
            3
        } else {
            4
        };
        n = n + b;
        i += 1;
    }
    proof {
        assert(l@.take(i as int) =~= l@);
    }
    n
}

/// How many times `m` occurs in `cmd`.
fn count_move(cmd: &Vec<Move>, m: Move) -> (n: usize)
    ensures
        n == count_of(cmd@, m),
{
    let mut n: usize = 0;
    let mut i: usize = 0;
    while i < cmd.len()
        invariant
            i <= cmd@.len(),
            n == count_of(cmd@.take(i as int), m),
            n <= i,
        decreases cmd@.len() - i,
    {
        proof {
            assert(cmd@.take(i + 1).drop_last() =~= cmd@.take(i as int));
        }
        if cmd[i] == m {
            n += 1;
        }
        i += 1;
    }
    proof {
        assert(cmd@.take(i as int) =~= cmd@);
    }
    n
}

/// A copy of a pattern's rows.
fn copy_rows(rows: &Vec<Vec<PatSq>>) -> (v: Vec<Vec<PatSq>>)
    ensures
        v@.map_values(|r: Vec<PatSq>| r@) == rows@.map_values(|r: Vec<PatSq>| r@),
{
    let mut v: Vec<Vec<PatSq>> = Vec::new();
    let mut i: usize = 0;
    while i < rows.len()
        invariant
            i <= rows@.len(),
            v@.map_values(|r: Vec<PatSq>| r@) == rows@.take(i as int).map_values(|r: Vec<PatSq>| r@),
        decreases rows@.len() - i,
    {
        let row = rows[i].clone();
        proof {
            assert(row@ == rows@[i as int]@);
        }
        let ghost prev = v@;
        v.push(row);
        proof {
            assert(rows@.take(i + 1) =~= rows@.take(i as int).push(rows@[i as int]));
            assert(v@.map_values(|r: Vec<PatSq>| r@) =~= prev.map_values(|r: Vec<PatSq>| r@).push(row@));
            assert(rows@.take(i + 1).map_values(|r: Vec<PatSq>| r@) =~= rows@.take(i as int).map_values(|r: Vec<PatSq>| r@).push(rows@[i as int]@));
        }
        i += 1;
    }
    proof {
        assert(rows@.take(i as int) =~= rows@);
    }
    v
}

/// The reader's state held in its variables.
pub open spec fn parse_state(
    rv: Seq<Pat>,
    rows: Seq<Vec<PatSq>>,
    frows: Seq<Vec<PatSq>>,
    flip_ok: bool,
    o_r: usize,
    o_c: usize,
) -> PatParse {
    PatParse {
        done: rv.map_values(|p: Pat| p@),
        rows: rows.map_values(|r: Vec<PatSq>| r@),
        frows: frows.map_values(|r: Vec<PatSq>| r@),
        flip_ok,
        o_r,
        o_c,
    }
}

/// Reads the patterns of a pattern file: each pattern is a block of rows of
/// pattern characters, top row first, with an `R` where the robot stands,
/// closed by a `!` line holding its moves and, after a space, its cost
/// (the cost's length). Each pattern is followed by its mirror image when it
/// has no lambda square. Text after a `;` is a comment.
pub fn read_patterns(text: &str) -> (rv: Vec<Pat>)
    requires
        valid_patterns_text(text@),
    ensures
        rv@.map_values(|p: Pat| p@) == parse_lines(parse_start(), all_lines(text@)).done,
{
    let lines = split_lines(text);
    let ghost ls = all_lines(text@);
    let mut rv: Vec<Pat> = Vec::new();
    let mut p_pat: Vec<Vec<PatSq>> = Vec::new();
    let mut flip_p_pat: Vec<Vec<PatSq>> = Vec::new();
    let mut flip_ok = true;
    let mut o_r: usize = 0;
    let mut o_c: usize = 0;
    let mut i: usize = 0;
    proof {
        assert(ls.skip(0) =~= ls);
        let st0 = parse_state(rv@, p_pat@, flip_p_pat@, flip_ok, o_r, o_c);
        assert(st0.done =~= parse_start().done);
        assert(st0.rows =~= parse_start().rows);
        assert(st0.frows =~= parse_start().frows);
        assert(st0 == parse_start());
    }
    while i < lines.len()
        invariant
            lines@.len() == ls.len(),
            forall|k: int| 0 <= k < lines@.len() ==> #[trigger] lines@[k]@ == ls[k],
            i <= ls.len(),
            parse_lines(parse_start(), ls) == parse_lines(
                parse_state(rv@, p_pat@, flip_p_pat@, flip_ok, o_r, o_c),
                ls.skip(i as int),
            ),
            lines_ok(parse_state(rv@, p_pat@, flip_p_pat@, flip_ok, o_r, o_c), ls.skip(i as int)),
        decreases ls.len() - i,
    {
        let ghost st = parse_state(rv@, p_pat@, flip_p_pat@, flip_ok, o_r, o_c);
        let ghost raw = ls[i as int];
        proof {
            assert(ls.skip(i as int)[0] == raw);
            assert(ls.skip(i as int).drop_first() =~= ls.skip(i + 1));
            assert(line_ok(st, raw));
        }
        let line = cut_line(&lines[i]);
        let ghost cl = cut(raw);
        assert(line@ == cl);
        if line.len() == 0 {
            proof {
                assert(parse_line(st, raw) == st);
            }
        } else if line[0] != '!' {
            let mut pp_line: Vec<PatSq> = Vec::new();
            let mut k: usize = 0;
            while k < line.len()
                invariant
                    line@ == cl,
                    cl.len() > 0,
                    forall|t: int| 0 <= t < cl.len() ==> (#[trigger] char_patsq(cl[t])) is Some,
                    k <= cl.len(),
                    pp_line@ == row_of(cl).take(k as int),
                decreases cl.len() - k,
            {
                pp_line.push(ch_to_patsq(line[k]));
                proof {
                    assert(pp_line@ =~= row_of(cl).take(k + 1));
                }
                k += 1;
            }
            let ghost ok0 = flip_ok;
            let mut f_pp_line: Vec<PatSq> = Vec::new();
            let mut k: usize = line.len();
            while k > 0
                invariant
                    line@ == cl,
                    cl.len() > 0,
                    forall|t: int| 0 <= t < cl.len() ==> (#[trigger] char_patsq(cl[t])) is Some,
                    k <= cl.len(),
                    f_pp_line@ == frow_of(cl).take(cl.len() - k),
                    flip_ok == (ok0 && !cl.subrange(k as int, cl.len() as int).contains('\\')),
                decreases k,
            {
                let ps = ch_to_patsq(line[k - 1]);
                let f = flip_patsq(ps, &mut flip_ok);
                f_pp_line.push(f);
                proof {
                    assert(f_pp_line@ =~= frow_of(cl).take(cl.len() - k + 1));
                    let a = cl.subrange(k - 1, cl.len() as int);
                    let b = cl.subrange(k as int, cl.len() as int);
                    assert(a =~= seq![cl[k - 1]] + b);
                    assert((ps == PatSq::Lam) == (cl[k - 1] == '\\'));
                    if a.contains('\\') && !b.contains('\\') {
                        let j = choose|j: int| 0 <= j < a.len() && a[j] == '\\';
                        if j > 0 {
                            assert(b[j - 1] == '\\');
                        }
                    }
                    if b.contains('\\') {
                        let j = choose|j: int| 0 <= j < b.len() && b[j] == '\\';
                        assert(a[j + 1] == '\\');
                    }
                    if cl[k - 1] == '\\' {
                        assert(a[0] == '\\');
                    }
                }
                k -= 1;
            }
            proof {
                assert(pp_line@ =~= row_of(cl));
                assert(f_pp_line@ =~= frow_of(cl));
                assert(cl.subrange(0, cl.len() as int) =~= cl);
            }
            p_pat.push(pp_line);
            flip_p_pat.push(f_pp_line);
            let r = index_of(&line, 'R');
            if r < line.len() {
                o_r = p_pat.len();
                o_c = r;
            }
            proof {
                let st2 = parse_state(rv@, p_pat@, flip_p_pat@, flip_ok, o_r, o_c);
                assert(st2.rows =~= st.rows.push(row_of(cl)));
                assert(st2.frows =~= st.frows.push(frow_of(cl)));
                assert(st2 == parse_line(st, raw));
            }
        } else {
            let rest = slice_of(&line, 1, line.len());
            proof {
                assert(rest@ =~= cl.drop_first());
                lemma_idx_bound(rest@, ' ');
            }
            let k0 = index_of(&rest, ' ');
            let meta0 = slice_of(&rest, 0, k0);
            let r1 = slice_of(&rest, k0 + 1, rest.len());
            proof {
                assert(meta0@ =~= cmd_part(cl));
                assert(r1@ =~= rest@.skip(k0 + 1));
                lemma_idx_bound(r1@, ' ');
            }
            let k1 = index_of(&r1, ' ');
            let meta1 = slice_of(&r1, 0, k1);
            proof {
                assert(meta1@ =~= cost_part(cl));
            }
            let mut cmd: Vec<Move> = Vec::new();
            let mut k: usize = 0;
            while k < meta0.len()
                invariant
                    meta0@ == cmd_part(cl),
                    forall|t: int| 0 <= t < meta0@.len() ==> (#[trigger] char_move(meta0@[t])) is Some,
                    k <= meta0@.len(),
                    cmd@ == meta0@.take(k as int).map_values(|c: char| char_move(c).unwrap()),
                decreases meta0@.len() - k,
            {
                cmd.push(move_from_char(meta0[k]));
                proof {
                    assert(cmd@ =~= meta0@.take(k + 1).map_values(|c: char| char_move(c).unwrap()));
                }
                k += 1;
            }
            proof {
                assert(meta0@.take(k as int) =~= meta0@);
            }
            let delta_r = count_move(&cmd, Move::D).wrapping_sub(count_move(&cmd, Move::U));
            let delta_c = count_move(&cmd, Move::R).wrapping_sub(count_move(&cmd, Move::L));
            let cost = utf8_size(&meta1);
            let ghost closed = closed_patterns(st, cl);
            let ghost done0 = rv@;
            let ghost rows0 = p_pat@;
            let row0_len = p_pat[0].len();
            let mut fcmd: Vec<Move> = Vec::new();
            let mut k: usize = 0;
            while k < cmd.len()
                invariant
                    k <= cmd@.len(),
                    fcmd@ == cmd@.take(k as int).map_values(|m: Move| flipped(m)),
                decreases cmd@.len() - k,
            {
                fcmd.push(cmd[k].flip());
                proof {
                    assert(fcmd@ =~= cmd@.take(k + 1).map_values(|m: Move| flipped(m)));
                }
                k += 1;
            }
            proof {
                assert(cmd@.take(k as int) =~= cmd@);
            }
            let p1 = Pat {
                p: copy_rows(&p_pat),
                off_r: o_r,
                off_c: o_c,
                off_r_dest: o_r.wrapping_add(delta_r),
                off_c_dest: o_c.wrapping_add(delta_c),
                cost,
                cmd,
            };
            proof {
                assert(p1@ == closed[0]);
            }
            rv.push(p1);
            if flip_ok {
                let p2 = Pat {
                    p: copy_rows(&flip_p_pat),
                    off_r: o_r,
                    off_c: row0_len.wrapping_sub(1).wrapping_sub(o_c),
                    off_r_dest: o_r.wrapping_add(delta_r),
                    off_c_dest: o_c.wrapping_sub(delta_c),
                    cost,
                    cmd: fcmd,
                };
                proof {
                    assert(p2@ == closed[1]);
                }
                rv.push(p2);
            }
            p_pat = Vec::new();
            flip_p_pat = Vec::new();
            flip_ok = true;
            proof {
                let st2 = parse_state(rv@, p_pat@, flip_p_pat@, flip_ok, o_r, o_c);
                assert(st2.done =~= st.done + closed);
                assert(st2.rows =~= Seq::<Seq<PatSq>>::empty());
                assert(st2.frows =~= Seq::<Seq<PatSq>>::empty());
                assert(st2 == parse_line(st, raw));
            }
        }
        i += 1;
    }
    proof {
        assert(ls.skip(i as int) =~= Seq::<Seq<char>>::empty());
    }
    rv
}

/// Whether `c` is a pattern character.
fn is_patsq_char(c: char) -> (b: bool)
    ensures
        b == char_patsq(c) is Some,
{
    c == 'R' || c == 'E' || c == 'P' || c == '>' || c == '<' || c == 'S' || c == '*' || c == '\\'
        || c == '_' || c == 'X' || c == '?'
}

/// Whether `c` names a move.
fn is_move_char(c: char) -> (b: bool)
    ensures
        b == char_move(c) is Some,
{
    c == 'u' || c == 'U' || c == 'd' || c == 'D' || c == 'l' || c == 'L' || c == 'r' || c == 'R'
        || c == 'w' || c == 'W' || c == 'a' || c == 'A'
}

/// Whether the UTF-8 encoding of `l` fits in a `usize` count of bytes.
fn utf8_fits(l: &Vec<char>) -> (b: bool)
    ensures
        b == (utf8_len(l@) <= usize::MAX),
{
    let mut n: u128 = 0;
    let mut i: usize = 0;
    while i < l.len()
        invariant
            i <= l@.len(),
            n == utf8_len(l@.take(i as int)),
            n <= 4 * i,
        decreases l@.len() - i,
    {
        proof {
            assert(l@.take(i + 1).drop_last() =~= l@.take(i as int));
        }
        let u = l[i] as u32;
        let b: u128 = if u < 0x80 {
            1
        } else if u < 0x800 {
            2
        } else if u < 0x10000 {
            3
        } else {
            4
        };
        n = n + b;
        i += 1;
    }
    proof {
        assert(l@.take(i as int) =~= l@);
    }
    n <= usize::MAX as u128
}

/// Whether the reader can take the line `raw` when it has (or has not) rows
/// of a pattern in hand.
fn line_valid(raw: &Vec<char>, have_rows: bool, Ghost(st): Ghost<PatParse>) -> (b: bool)
    requires
        have_rows == (st.rows.len() > 0),
    ensures
        b == line_ok(st, raw@),
{
    let line = cut_line(raw);
    let ghost cl = cut(raw@);
    if line.len() == 0 {
        return true;
    }
    if line[0] != '!' {
        let mut k: usize = 0;
        while k < line.len()
            invariant
                line@ == cl,
                cl == cut(raw@),
                cl.len() > 0 && cl[0] != '!',
                k <= cl.len(),
                forall|t: int| 0 <= t < k ==> (#[trigger] char_patsq(cl[t])) is Some,
            decreases cl.len() - k,
        {
            if !is_patsq_char(line[k]) {
                assert(!(char_patsq(cl[k as int]) is Some));
                return false;
            }
            k += 1;
        }
        return true;
    }
    let rest = slice_of(&line, 1, line.len());
    proof {
        assert(rest@ =~= cl.drop_first());
        lemma_idx_bound(rest@, ' ');
    }
    let k0 = index_of(&rest, ' ');
    if k0 >= rest.len() || !have_rows {
        return false;
    }
    let meta0 = slice_of(&rest, 0, k0);
    let r1 = slice_of(&rest, k0 + 1, rest.len());
    proof {
        assert(meta0@ =~= cmd_part(cl));
        assert(r1@ =~= rest@.skip(k0 + 1));
        lemma_idx_bound(r1@, ' ');
    }
    let k1 = index_of(&r1, ' ');
    let meta1 = slice_of(&r1, 0, k1);
    proof {
        assert(meta1@ =~= cost_part(cl));
    }
    if !utf8_fits(&meta1) {
        return false;
    }
    let mut k: usize = 0;
    while k < meta0.len()
        invariant
            meta0@ == cmd_part(cl),
            cl == cut(raw@),
            cl.len() > 0 && cl[0] == '!',
            k <= meta0@.len(),
            forall|t: int| 0 <= t < k ==> (#[trigger] char_move(meta0@[t])) is Some,
        decreases meta0@.len() - k,
    {
        if !is_move_char(meta0[k]) {
            assert(!(char_move(cmd_part(cl)[k as int]) is Some));
            return false;
        }
        k += 1;
    }
    true
}

/// Whether `read_patterns` takes the text without failing.
pub fn patterns_text_valid(text: &str) -> (b: bool)
    ensures
        b == valid_patterns_text(text@),
{
    let lines = split_lines(text);
    let ghost ls = all_lines(text@);
    let ghost mut st = parse_start();
    let mut have_rows = false;
    let mut i: usize = 0;
    proof {
        assert(ls.skip(0) =~= ls);
    }
    while i < lines.len()
        invariant
            lines@.len() == ls.len(),
            forall|k: int| 0 <= k < lines@.len() ==> #[trigger] lines@[k]@ == ls[k],
            i <= ls.len(),
            have_rows == (st.rows.len() > 0),
            valid_patterns_text(text@) == lines_ok(st, ls.skip(i as int)),
            ls == all_lines(text@),
        decreases ls.len() - i,
    {
        let ghost raw = ls[i as int];
        proof {
            assert(ls.skip(i as int)[0] == raw);
            assert(ls.skip(i as int).drop_first() =~= ls.skip(i + 1));
        }
        if !line_valid(&lines[i], have_rows, Ghost(st)) {
            return false;
        }
        let line = cut_line(&lines[i]);
        if line.len() > 0 {
            have_rows = line[0] != '!';
        }
        proof {
            st = parse_line(st, raw);
        }
        i += 1;
    }
    proof {
        assert(ls.skip(i as int) =~= Seq::<Seq<char>>::empty());
    }
    true
}

/// Mirroring a pattern square twice gives it back.
pub proof fn law_flip_patsq_twice(ps: PatSq)
    ensures
        flipped_patsq(flipped_patsq(ps)) == ps,
{
}

proof fn lemma_count_flipped(l: Seq<Move>)
    ensures
        count_of(l.map_values(|m: Move| flipped(m)), Move::D) == count_of(l, Move::D),
        count_of(l.map_values(|m: Move| flipped(m)), Move::U) == count_of(l, Move::U),
        count_of(l.map_values(|m: Move| flipped(m)), Move::R) == count_of(l, Move::L),
        count_of(l.map_values(|m: Move| flipped(m)), Move::L) == count_of(l, Move::R),
    decreases l.len(),
{
    if l.len() > 0 {
        let f = l.map_values(|m: Move| flipped(m));
        lemma_count_flipped(l.drop_last());
        assert(f.drop_last() =~= l.drop_last().map_values(|m: Move| flipped(m)));
        assert(f.last() == flipped(l.last()));
    }
}

/// Each pattern a `!` line closes leads its robot, by its moves, as many
/// rows down as the moves go down minus up (in machine arithmetic); the
/// pattern as read also leads it as many columns right as they go right
/// minus left. (Its mirror image keeps the row of the robot's goal, but not
/// this column rule: its goal column is taken from the unmirrored robot.)
pub proof fn law_closed_pattern_offsets(st: PatParse, cl: Seq<char>)
    ensures
        forall|k: int|
            0 <= k < closed_patterns(st, cl).len() ==> (#[trigger] closed_patterns(st, cl)[k]).off_r_dest
                == wrapping_add(
                closed_patterns(st, cl)[k].off_r,
                wrapping_sub(
                    count_of(closed_patterns(st, cl)[k].cmd, Move::D) as usize,
                    count_of(closed_patterns(st, cl)[k].cmd, Move::U) as usize,
                ),
            ),
        closed_patterns(st, cl)[0].off_c_dest == wrapping_add(
            closed_patterns(st, cl)[0].off_c,
            wrapping_sub(
                count_of(closed_patterns(st, cl)[0].cmd, Move::R) as usize,
                count_of(closed_patterns(st, cl)[0].cmd, Move::L) as usize,
            ),
        ),
{
    let cmd = cmd_part(cl).map_values(|c: char| char_move(c).unwrap());
    lemma_count_flipped(cmd);
}

/// The robot's goal row in pattern `q` is as many rows below its place as
/// its moves go down minus up (in machine arithmetic).
pub open spec fn goal_row_ok(q: PatView) -> bool {
    q.off_r_dest == wrapping_add(
        q.off_r,
        wrapping_sub(count_of(q.cmd, Move::D) as usize, count_of(q.cmd, Move::U) as usize),
    )
}

/// Every pattern read from a pattern file puts the robot's goal row where
/// the pattern's moves lead it.
pub proof fn law_read_goal_rows(t: Seq<char>)
    ensures
        forall|i: int|
            0 <= i < parse_lines(parse_start(), all_lines(t)).done.len() ==> goal_row_ok(
                #[trigger] parse_lines(parse_start(), all_lines(t)).done[i],
            ),
{
    lemma_goal_rows(parse_start(), all_lines(t));
}

proof fn lemma_goal_rows(st: PatParse, ls: Seq<Seq<char>>)
    requires
        forall|i: int| 0 <= i < st.done.len() ==> goal_row_ok(#[trigger] st.done[i]),
    ensures
        forall|i: int| 0 <= i < parse_lines(st, ls).done.len() ==> goal_row_ok(#[trigger] parse_lines(st, ls).done[i]),
    decreases ls.len(),
{
    if ls.len() > 0 {
        let cl = cut(ls[0]);
        let next = parse_line(st, ls[0]);
        if cl.len() != 0 && cl[0] == '!' {
            let c = closed_patterns(st, cl);
            law_closed_pattern_offsets(st, cl);
            assert forall|i: int| 0 <= i < next.done.len() implies goal_row_ok(#[trigger] next.done[i]) by {
                if i >= st.done.len() {
                    assert(next.done[i] == c[i - st.done.len()]);
                }
            }
        } else {
            assert(next.done == st.done);
        }
        lemma_goal_rows(next, ls.drop_first());
        assert(parse_lines(st, ls) == parse_lines(next, ls.drop_first()));
    }
}

/// A line that closes no pattern: blank, a comment, or a row of pattern
/// squares.
pub open spec fn closes_nothing(l: Seq<char>) -> bool {
    cut(l).len() == 0 || cut(l)[0] != '!'
}

/// The pattern rows lines `ls` hold, in order: one for each line that is
/// not blank once its comment is cut.
pub open spec fn block_rows(ls: Seq<Seq<char>>) -> Seq<Seq<PatSq>>
    decreases ls.len(),
{
    if ls.len() == 0 {
        Seq::empty()
    } else if cut(ls.last()).len() == 0 {
        block_rows(ls.drop_last())
    } else {
        block_rows(ls.drop_last()).push(row_of(cut(ls.last())))
    }
}

proof fn lemma_parse_lines_push(st: PatParse, ls: Seq<Seq<char>>, l: Seq<char>)
    ensures
        parse_lines(st, ls.push(l)) == parse_line(parse_lines(st, ls), l),
    decreases ls.len(),
{
    let lp = ls.push(l);
    if ls.len() > 0 {
        assert(lp.drop_first() =~= ls.drop_first().push(l));
        assert(lp[0] == ls[0]);
        lemma_parse_lines_push(parse_line(st, ls[0]), ls.drop_first(), l);
        assert(parse_lines(st, lp) == parse_lines(parse_line(st, ls[0]), lp.drop_first()));
    } else {
        assert(lp.drop_first() =~= Seq::<Seq<char>>::empty());
        assert(lp[0] == l);
        assert(parse_lines(st, lp) == parse_lines(parse_line(st, l), lp.drop_first()));
    }
}

proof fn lemma_block_prefix(st: PatParse, ls: Seq<Seq<char>>)
    requires
        forall|i: int| 0 <= i < ls.len() ==> closes_nothing(#[trigger] ls[i]),
    ensures
        parse_lines(st, ls).rows == st.rows + block_rows(ls),
        parse_lines(st, ls).done == st.done,
    decreases ls.len(),
{
    if ls.len() == 0 {
        assert(st.rows + Seq::<Seq<PatSq>>::empty() =~= st.rows);
    } else {
        let init = ls.drop_last();
        assert(ls =~= init.push(ls.last()));
        assert(closes_nothing(ls[ls.len() - 1]));
        lemma_block_prefix(st, init);
        lemma_parse_lines_push(st, init, ls.last());
        let mid = parse_lines(st, init);
        if cut(ls.last()).len() != 0 {
            assert(parse_line(mid, ls.last()).rows == mid.rows.push(row_of(cut(ls.last()))));
            assert(st.rows + block_rows(init).push(row_of(cut(ls.last()))) =~= (st.rows + block_rows(init)).push(
                row_of(cut(ls.last())),
            ));
        }
    }
}

/// A pattern file is read block by block: from a reader between patterns,
/// lines that close nothing gather the block's rows, and the `!` line after
/// them adds exactly the patterns it closes over that block, leaving the
/// reader between patterns again.
pub proof fn law_read_block(st: PatParse, ls: Seq<Seq<char>>, bang: Seq<char>)
    requires
        st.rows.len() == 0,
        forall|i: int| 0 <= i < ls.len() ==> closes_nothing(#[trigger] ls[i]),
        !closes_nothing(bang),
    ensures
        parse_lines(st, ls).rows == block_rows(ls),
        parse_lines(st, ls.push(bang)).done == st.done + closed_patterns(parse_lines(st, ls), cut(bang)),
        parse_lines(st, ls.push(bang)).rows.len() == 0,
{
    lemma_block_prefix(st, ls);
    assert(st.rows + block_rows(ls) =~= block_rows(ls));
    lemma_parse_lines_push(st, ls, bang);
}

/// What each pattern square accepts: `Eat` earth, a lambda or an open
/// lift; `Pass` those and empty space; `FallR` a rock or a lambda; `FallL`
/// and `Boulder` a rock; `Solid` a rock or a wall; `Lam` a lambda; `Mt`
/// empty space; `NotMt` anything but empty space; `Any` anything.
pub proof fn law_pattern_squares(s: Square)
    ensures
        spec_mtc(PatSq::Eat, s) <==> (s == Square::Earth || s == Square::Lambda || s == Square::LiftO),
        spec_mtc(PatSq::Pass, s) <==> (s == Square::Earth || s == Square::Lambda || s == Square::Empty || s
            == Square::LiftO),
        spec_mtc(PatSq::FallR, s) <==> (s == Square::Rock || s == Square::Lambda),
        spec_mtc(PatSq::FallL, s) <==> s == Square::Rock,
        spec_mtc(PatSq::Boulder, s) <==> s == Square::Rock,
        spec_mtc(PatSq::Solid, s) <==> (s == Square::Rock || s == Square::Wall),
        spec_mtc(PatSq::Lam, s) <==> s == Square::Lambda,
        spec_mtc(PatSq::Mt, s) <==> s == Square::Empty,
        spec_mtc(PatSq::NotMt, s) <==> s != Square::Empty,
        spec_mtc(PatSq::Any, s),
        spec_mtc(PatSq::Solid, Square::Rock),
        spec_mtc(PatSq::Solid, Square::Wall),
        !spec_mtc(PatSq::Solid, Square::Earth) && !spec_mtc(PatSq::Solid, Square::Empty)
            && !spec_mtc(PatSq::Solid, Square::Lambda),
{
}

/// The falling squares of patterns are those the map update rolls a rock
/// off: a rock over a non-empty square `below`, with the squares to its
/// right and below right empty, slides right exactly when `FallR` accepts
/// `below`; when those are not both empty but the ones on the left are, it
/// slides left exactly when `FallL` accepts `below`.
pub proof fn law_fall_squares(g: Seq<Seq<Square>>, x: int, y: int)
    requires
        cell(g, x, y - 1) != Square::Empty,
    ensures
        cell(g, x + 1, y) == Square::Empty && cell(g, x + 1, y - 1) == Square::Empty ==> (rock_target(
            g,
            x,
            y,
        ) == Some((x + 1, y - 1)) <==> spec_mtc(PatSq::FallR, cell(g, x, y - 1))),
        !(cell(g, x + 1, y) == Square::Empty && cell(g, x + 1, y - 1) == Square::Empty) && cell(g, x - 1, y)
            == Square::Empty && cell(g, x - 1, y - 1) == Square::Empty ==> (rock_target(g, x, y) == Some(
            (x - 1, y - 1),
        ) <==> spec_mtc(PatSq::FallL, cell(g, x, y - 1))),
{
}

/// Laying a pattern with its robot square on `base` puts its column `c` as
/// many columns right of `base` as `c` lies right of the robot's column,
/// and its row `r` as many rows below `base` as `r` lies below the robot's
/// row (pattern rows run top first; grid rows count from the bottom), when
/// the square lies in the machine's range. The robot square lands on `base`.
pub proof fn law_pattern_placement(base: Coord, off_r: usize, off_c: usize, r: usize, c: usize)
    ensures
        0 <= base.0 + c - off_c <= usize::MAX ==> ult(base, off_r, off_c, r as int, c as int).0 == base.0 + c
            - off_c,
        0 <= base.1 - (r - off_r) <= usize::MAX ==> ult(base, off_r, off_c, r as int, c as int).1 == base.1
            - (r - off_r),
        ult(base, off_r, off_c, off_r as int, off_c as int) == base,
{
}

} // verus!
