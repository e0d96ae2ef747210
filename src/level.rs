//! The text form of a level: `#` wall, ` ` floor, `.` target, `$` box on
//! floor, `*` box on target, `@` player on floor, `+` player on target.
//! Blank lines are skipped and rows are padded with floor to the longest.

use vstd::prelude::*;
use vstd::std_specs::iter::IteratorSpec;
use crate::board::SharedGameState;
use crate::box_set::GameStateEnvironment;
use crate::model::{mk_pos, pos_lt, Cell, Vec2};
use crate::state::GameState;

verus! {

broadcast use vstd::string::group_string_axioms;

/// The text split at each `'\n'` (the last piece may be empty).
pub open spec fn split_lines(s: Seq<char>) -> Seq<Seq<char>>
    decreases s.len(),
{
    if s.len() == 0 {
        seq![Seq::<char>::empty()]
    } else {
        let r = split_lines(s.drop_last());
        if s.last() == '\n' {
            r.push(Seq::<char>::empty())
        } else {
            r.update(r.len() - 1, r.last().push(s.last()))
        }
    }
}

/// A line without its trailing `'\r'`, if it has one.
pub open spec fn strip_cr(l: Seq<char>) -> Seq<char> {
    if l.len() > 0 && l.last() == '\r' {
        l.drop_last()
    } else {
        l
    }
}

/// The non-empty lines, each without a trailing `'\r'`.
pub open spec fn clean_lines(ls: Seq<Seq<char>>) -> Seq<Seq<char>>
    decreases ls.len(),
{
    if ls.len() == 0 {
        Seq::empty()
    } else {
        let r = clean_lines(ls.drop_last());
        if strip_cr(ls.last()).len() > 0 {
            r.push(strip_cr(ls.last()))
        } else {
            r
        }
    }
}

/// The rows of a level text.
pub open spec fn level_lines(s: Seq<char>) -> Seq<Seq<char>> {
    clean_lines(split_lines(s))
}

/// Length of the longest of the first `n` lines.
pub open spec fn max_len(ls: Seq<Seq<char>>, n: int) -> nat
    decreases n,
{
    if n <= 0 {
        0
    } else {
        let m = max_len(ls, n - 1);
        if ls[n - 1].len() > m {
            ls[n - 1].len()
        } else {
            m
        }
    }
}

/// Width of the board of a level text.
pub open spec fn level_width(s: Seq<char>) -> nat {
    max_len(level_lines(s), level_lines(s).len() as int)
}

/// The level fits the coordinate range: at most 127 rows and columns.
pub open spec fn level_fits(s: Seq<char>) -> bool {
    level_lines(s).len() <= 127 && level_width(s) <= 127
}

pub open spec fn cell_of_char(c: char) -> Cell {
    if c == '#' {
        Cell::Wall
    } else if c == '.' || c == '*' || c == '+' {
        Cell::Target
    } else {
        Cell::Floor
    }
}

pub open spec fn is_box_char(c: char) -> bool {
    c == '$' || c == '*'
}

pub open spec fn is_player_char(c: char) -> bool {
    c == '@' || c == '+'
}

/// `lines` has a character at `p`.
pub open spec fn has_char(lines: Seq<Seq<char>>, p: Vec2) -> bool {
    0 <= p.i < lines.len() && 0 <= p.j < lines[p.i as int].len()
}

/// A box glyph stands at `p`.
pub open spec fn box_at(lines: Seq<Seq<char>>, p: Vec2) -> bool {
    has_char(lines, p) && is_box_char(lines[p.i as int][p.j as int])
}

/// A player glyph stands at `p`.
pub open spec fn player_at(lines: Seq<Seq<char>>, p: Vec2) -> bool {
    has_char(lines, p) && is_player_char(lines[p.i as int][p.j as int])
}

/// What parsing `s` yields: the board, the boxes and the player (the last
/// player glyph in row-major order, or `(0, 0)` when there is none).
pub open spec fn parses_to(s: Seq<char>, game: GameState, board: SharedGameState) -> bool {
    let lines = level_lines(s);
    let w = level_width(s);
    &&& board.grid@.len() == lines.len()
    &&& forall|i: int|
        0 <= i < lines.len() ==> (#[trigger] board.grid@[i])@.len() == w && forall|j: int|
            0 <= j < w ==> #[trigger] board.grid@[i]@[j] == if j < lines[i].len() {
                cell_of_char(lines[i][j])
            } else {
                Cell::Floor
            }
    &&& game.environment.wf()
    &&& forall|p: Vec2|
        #[trigger] game.environment.box_set().contains(p) <==> box_at(lines, p)
    &&& if exists|p: Vec2| #[trigger] player_at(lines, p) {
        &&& player_at(lines, game.player)
        &&& forall|p: Vec2|
            #[trigger] player_at(lines, p) ==> p == game.player
                || pos_lt(p, game.player)
    } else {
        game.player == (Vec2 { i: 0, j: 0 })
    }
}

/// The characters of `s`.
fn collect_chars(s: &str) -> (r: Vec<char>)
    ensures
        r@ == s@,
{
    let mut out: Vec<char> = Vec::new();
    let mut it = s.chars();
    loop
        invariant
            out@ + it.remaining() == s@,
            it.obeys_prophetic_iter_laws(),
            it.decrease() is Some,
        ensures
            out@ == s@,
        decreases it.decrease()->0,
    {
        match it.next() {
            Some(c) => {
                out.push(c);
                proof {
                    assert(out@ + it.remaining() =~= s@);
                }
            },
            None => {
                proof {
                    assert(out@ =~= s@);
                }
                break;
            },
        }
    }
    out
}

pub open spec fn line_views(v: Seq<Vec<char>>) -> Seq<Seq<char>> {
    v.map_values(|l: Vec<char>| l@)
}

proof fn lemma_split_nonempty(s: Seq<char>)
    ensures
        split_lines(s).len() >= 1,
    decreases s.len(),
{
    if s.len() > 0 {
        lemma_split_nonempty(s.drop_last());
    }
}

/// Appends `line`, without a trailing `'\r'`, to `done` unless it is empty.
fn finish_line(done: &mut Vec<Vec<char>>, line: Vec<char>)
    ensures
        line_views(final(done)@) == if strip_cr(line@).len() > 0 {
            line_views(old(done)@).push(strip_cr(line@))
        } else {
            line_views(old(done)@)
        },
{
    let ghost raw = line@;
    let mut line = line;
    let n = line.len();
    if n > 0 && line[n - 1] == '\r' {
        line.pop();
        proof {
            assert(line@ =~= strip_cr(raw));
        }
    }
    let ghost stripped = line@;
    if line.len() > 0 {
        done.push(line);
        proof {
            assert(line_views(done@) =~= line_views(old(done)@).push(stripped));
        }
    }
}

/// The rows of the level text `chars`.
fn split_rows(chars: &Vec<char>) -> (r: Vec<Vec<char>>)
    ensures
        line_views(r@) == level_lines(chars@),
{
    let mut done: Vec<Vec<char>> = Vec::new();
    let mut cur: Vec<char> = Vec::new();
    let mut k: usize = 0;
    proof {
        assert(chars@.subrange(0, 0) =~= Seq::<char>::empty());
        assert(line_views(done@) =~= Seq::<Seq<char>>::empty());
        assert(clean_lines(split_lines(Seq::<char>::empty()).drop_last()) =~= Seq::<Seq<char>>::empty()) by {
            assert(split_lines(Seq::<char>::empty()).drop_last() =~= Seq::<Seq<char>>::empty());
        }
    }
    while k < chars.len()
        invariant
            k <= chars@.len(),
            line_views(done@) == clean_lines(split_lines(chars@.subrange(0, k as int)).drop_last()),
            cur@ == split_lines(chars@.subrange(0, k as int)).last(),
        decreases chars@.len() - k,
    {
        let c = chars[k];
        let ghost pre = chars@.subrange(0, k as int);
        let ghost post = chars@.subrange(0, k + 1);
        proof {
            assert(post.drop_last() =~= pre);
            assert(post.last() == c);
            lemma_split_nonempty(pre);
        }
        if c == '\n' {
            let line = cur;
            cur = Vec::new();
            finish_line(&mut done, line);
            proof {
                let sp = split_lines(pre);
                assert(split_lines(post) == sp.push(Seq::<char>::empty()));
                assert(split_lines(post).drop_last() =~= sp);
                assert(sp.drop_last().push(sp.last()) =~= sp);
                assert(clean_lines(sp) == if strip_cr(sp.last()).len() > 0 {
                    clean_lines(sp.drop_last()).push(strip_cr(sp.last()))
                } else {
                    clean_lines(sp.drop_last())
                });
                assert(cur@ =~= split_lines(post).last());
            }
        } else {
            cur.push(c);
            proof {
                let sp = split_lines(pre);
                assert(split_lines(post) == sp.update(sp.len() - 1, sp.last().push(c)));
                assert(split_lines(post).drop_last() =~= sp.drop_last());
            }
        }
        k += 1;
    }
    proof {
        assert(chars@.subrange(0, k as int) =~= chars@);
        let sp = split_lines(chars@);
        lemma_split_nonempty(chars@);
        assert(sp.drop_last().push(sp.last()) =~= sp);
    }
    finish_line(&mut done, cur);
    done
}

/// Length of the longest row.
fn max_width(lines: &Vec<Vec<char>>) -> (r: usize)
    ensures
        r == max_len(line_views(lines@), lines@.len() as int),
{
    let mut m: usize = 0;
    let mut i: usize = 0;
    while i < lines.len()
        invariant
            i <= lines@.len(),
            m == max_len(line_views(lines@), i as int),
        decreases lines@.len() - i,
    {
        proof {
            assert(line_views(lines@)[i as int] == lines@[i as int]@);
        }
        if lines[i].len() > m {
            m = lines[i].len();
        }
        i += 1;
    }
    m
}

proof fn lemma_max_len(ls: Seq<Seq<char>>, n: int, i: int)
    requires
        0 <= i < n <= ls.len(),
    ensures
        ls[i].len() <= max_len(ls, n),
    decreases n,
{
    if i < n - 1 {
        lemma_max_len(ls, n - 1, i);
    }
}

/// The cell a glyph stands for.
fn cell_of(c: char) -> (r: Cell)
    ensures
        r == cell_of_char(c),
{
    if c == '#' {
        Cell::Wall
    } else if c == '.' || c == '*' || c == '+' {
        Cell::Target
    } else {
        Cell::Floor
    }
}

/// Whether the level text fits the coordinate range (at most 127 rows and
/// columns), as `parse_level` requires.
pub fn level_fits_in_range(s: &str) -> (r: bool)
    ensures
        r == level_fits(s@),
{
    let chars = collect_chars(s);
    let lines = split_rows(&chars);
    let w = max_width(&lines);
    lines.len() <= 127 && w <= 127
}

/// Parses a level text into its initial state and its board.
pub fn parse_level(s: &str) -> (r: (GameState, SharedGameState))
    requires
        level_fits(s@),
    ensures
        parses_to(s@, r.0, r.1),
        r.1.wf(),
{
    let chars = collect_chars(s);
    let lines = split_rows(&chars);
    let ghost lv = level_lines(s@);
    let w = max_width(&lines);
    let h = lines.len();
    let mut grid: Vec<Vec<Cell>> = Vec::new();
    let mut boxes: Vec<Vec2> = Vec::new();
    let mut player = Vec2 { i: 0, j: 0 };
    let mut found = false;
    let mut i: usize = 0;
    while i < h
        invariant
            line_views(lines@) == lv,
            lv == level_lines(s@),
            level_fits(s@),
            h == lv.len(),
            w == level_width(s@),
            i <= h,
            grid@.len() == i,
            forall|a: int|
                0 <= a < i ==> (#[trigger] grid@[a])@.len() == w && forall|j: int|
                    0 <= j < w ==> #[trigger] grid@[a]@[j] == if j < lv[a].len() {
                        cell_of_char(lv[a][j])
                    } else {
                        Cell::Floor
                    },
            forall|p: Vec2| #[trigger] boxes@.contains(p) <==> (box_at(lv, p) && p.i < i),
            found ==> player_at(lv, player),
            !found ==> player == (Vec2 { i: 0, j: 0 }),
            forall|p: Vec2| #[trigger] player_at(lv, p) && p.i < i ==> found && (p == player || pos_lt(p, player)),
        decreases h - i,
    {
        let line = &lines[i];
        proof {
            assert(lv[i as int] == line@);
            lemma_max_len(lv, lv.len() as int, i as int);
        }
        let mut row: Vec<Cell> = Vec::new();
        let mut j: usize = 0;
        while j < w
            invariant
                line_views(lines@) == lv,
                lv == level_lines(s@),
                level_fits(s@),
                h == lv.len(),
                w == level_width(s@),
                i < h,
                line@ == lv[i as int],
                line@.len() <= w,
                j <= w,
                row@.len() == j,
                forall|b: int|
                    0 <= b < j ==> #[trigger] row@[b] == if b < lv[i as int].len() {
                        cell_of_char(lv[i as int][b])
                    } else {
                        Cell::Floor
                    },
                forall|p: Vec2| #[trigger] boxes@.contains(p) <==> (box_at(lv, p) && (p.i < i || (p.i == i && p.j < j))),
                found ==> player_at(lv, player),
                !found ==> player == (Vec2 { i: 0, j: 0 }),
                forall|p: Vec2|
                    #[trigger] player_at(lv, p) && (p.i < i || (p.i == i && p.j < j)) ==> found && (p == player
                        || pos_lt(p, player)),
            decreases w - j,
        {
            let pos = Vec2 { i: i as i8, j: j as i8 };
            let ghost boxes_before = boxes@;
            if j < line.len() {
                let c = line[j];
                row.push(cell_of(c));
                if c == '$' || c == '*' {
                    boxes.push(pos);
                }
                if c == '@' || c == '+' {
                    player = pos;
                    found = true;
                }
            } else {
                row.push(Cell::Floor);
            }
            proof {
                assert forall|p: Vec2| #[trigger] boxes@.contains(p) <==> (box_at(lv, p) && (p.i < i || (p.i == i
                    && p.j < j + 1))) by {
                    if boxes@.contains(p) && p != pos {
                        let m = choose|m: int| 0 <= m < boxes@.len() && boxes@[m] == p;
                        assert(boxes_before[m] == p);
                    }
                    if boxes_before.contains(p) {
                        let m = choose|m: int| 0 <= m < boxes_before.len() && boxes_before[m] == p;
                        assert(boxes@[m] == p);
                    }
                    if p.i == i && p.j == j {
                        assert(p == pos);
                        if box_at(lv, p) {
                            assert(boxes@[boxes_before.len() as int] == p);
                        }
                    }
                }
                assert forall|p: Vec2|
                    #[trigger] player_at(lv, p) && (p.i < i || (p.i == i && p.j < j + 1)) implies found && (p == player
                        || pos_lt(p, player)) by {
                    if p.i == i && p.j == j {
                        assert(p == pos);
                    }
                }
            }
            j += 1;
        }
        grid.push(row);
        proof {
            assert forall|p: Vec2| #[trigger] boxes@.contains(p) <==> (box_at(lv, p) && p.i < i + 1) by {
                if box_at(lv, p) && p.i == i {
                    assert(p.j < lv[i as int].len());
                }
            }
            assert forall|p: Vec2| #[trigger] player_at(lv, p) && p.i < i + 1 implies found && (p == player
                || pos_lt(p, player)) by {
                if p.i == i {
                    assert(p.j < lv[i as int].len());
                }
            }
        }
        i += 1;
    }
    let environment = GameStateEnvironment::new(boxes);
    let game = GameState { environment, player };
    let board = SharedGameState { grid };
    proof {
        assert forall|p: Vec2| #[trigger] game.environment.box_set().contains(p) <==> box_at(lv, p) by {
            if box_at(lv, p) {
                assert(p.i < h);
            }
        }
        if exists|p: Vec2| #[trigger] player_at(lv, p) {
            let p = choose|p: Vec2| #[trigger] player_at(lv, p);
            assert(p.i < h);
        }
        assert(board.wf()) by {
            if h > 0 {
                assert(board.grid@[0]@.len() == w);
            }
        }
    }
    (game, board)
}

/// The glyph of a cell, given whether the player or a box stands on it.
pub open spec fn glyph(c: Cell, has_player: bool, has_box: bool) -> char {
    match c {
        Cell::Wall => '#',
        Cell::Floor => if has_player {
            '@'
        } else if has_box {
            '$'
        } else {
            ' '
        },
        Cell::Target => if has_player {
            '+'
        } else if has_box {
            '*'
        } else {
            '.'
        },
    }
}

/// Row `i` of the text form, with its `'\n'`.
pub open spec fn render_row(board: SharedGameState, game: GameState, i: int) -> Seq<char> {
    Seq::new(
        board.spec_width() as nat,
        |j: int|
            glyph(
                board.grid@[i]@[j],
                game.player == mk_pos(i, j),
                game.environment.box_set().contains(mk_pos(i, j)),
            ),
    ).push('\n')
}

/// The first `n` rows of the text form.
pub open spec fn render_rows(board: SharedGameState, game: GameState, n: int) -> Seq<char>
    decreases n,
{
    if n <= 0 {
        Seq::empty()
    } else {
        render_rows(board, game, n - 1) + render_row(board, game, n - 1)
    }
}

/// Relies on `String`'s `FromIterator<&char>`: the string holds the
/// characters in order.
#[verifier::external_body]
fn string_from_chars(v: &Vec<char>) -> (r: String)
    ensures
        r@ == v@,
{
    v.iter().collect()
}

/// The glyph of a cell.
fn glyph_of(c: Cell, has_player: bool, has_box: bool) -> (r: char)
    ensures
        r == glyph(c, has_player, has_box),
{
    match c {
        Cell::Wall => '#',
        Cell::Floor => if has_player {
            '@'
        } else if has_box {
            '$'
        } else {
            ' '
        },
        Cell::Target => if has_player {
            '+'
        } else if has_box {
            '*'
        } else {
            '.'
        },
    }
}

/// The text form of `game` on `shared`: one line per row, each ended by
/// `'\n'`.
pub fn render_game_to_string(shared: &SharedGameState, game: &GameState) -> (r: String)
    requires
        shared.wf(),
    ensures
        r@ == render_rows(*shared, *game, shared.spec_height()),
{
    let mut out: Vec<char> = Vec::new();
    let h = shared.grid.len();
    let mut i: usize = 0;
    while i < h
        invariant
            shared.wf(),
            h == shared.spec_height(),
            i <= h,
            out@ == render_rows(*shared, *game, i as int),
        decreases h - i,
    {
        let row = &shared.grid[i];
        let ghost base = out@;
        let mut j: usize = 0;
        while j < row.len()
            invariant
                shared.wf(),
                i < h,
                h == shared.spec_height(),
                *row == shared.grid@[i as int],
                row@.len() == shared.spec_width(),
                j <= row@.len(),
                out@ == base + Seq::new(
                    j as nat,
                    |b: int|
                        glyph(
                            shared.grid@[i as int]@[b],
                            game.player == mk_pos(i as int, b),
                            game.environment.box_set().contains(mk_pos(i as int, b)),
                        ),
                ),
            decreases row@.len() - j,
        {
            let pos = Vec2 { i: i as i8, j: j as i8 };
            let has_player = pos == game.player;
            let has_box = game.environment.has_box_at(&pos);
            out.push(glyph_of(row[j], has_player, has_box));
            proof {
                assert(pos == mk_pos(i as int, j as int));
                assert(out@ =~= base + Seq::new(
                    (j + 1) as nat,
                    |b: int|
                        glyph(
                            shared.grid@[i as int]@[b],
                            game.player == mk_pos(i as int, b),
                            game.environment.box_set().contains(mk_pos(i as int, b)),
                        ),
                ));
            }
            j += 1;
        }
        out.push('\n');
        proof {
            assert(out@ =~= render_rows(*shared, *game, i + 1));
        }
        i += 1;
    }
    string_from_chars(&out)
}

/// Row `i` of the text form, without its `'\n'`.
pub open spec fn row_text(board: SharedGameState, game: GameState, i: int) -> Seq<char> {
    Seq::new(
        board.spec_width() as nat,
        |j: int|
            glyph(
                board.grid@[i]@[j],
                game.player == mk_pos(i, j),
                game.environment.box_set().contains(mk_pos(i, j)),
            ),
    )
}

/// Appending text without `'\n'` extends the last line.
proof fn lemma_split_append(s: Seq<char>, t: Seq<char>)
    requires
        forall|k: int| 0 <= k < t.len() ==> t[k] != '\n',
    ensures
        split_lines(s + t) == split_lines(s).update(
            split_lines(s).len() - 1,
            split_lines(s).last() + t,
        ),
    decreases t.len(),
{
    lemma_split_nonempty(s);
    if t.len() == 0 {
        assert(s + t =~= s);
        assert(split_lines(s).last() + t =~= split_lines(s).last());
        assert(split_lines(s).update(split_lines(s).len() - 1, split_lines(s).last()) =~= split_lines(s));
    } else {
        let t0 = t.drop_last();
        let c = t.last();
        lemma_split_append(s, t0);
        assert((s + t).drop_last() =~= s + t0);
        assert((s + t).last() == c);
        lemma_split_nonempty(s + t0);
        let sp = split_lines(s);
        assert(split_lines(s + t0).last() == sp.last() + t0);
        assert(c != '\n') by {
            assert(t[t.len() - 1] != '\n');
        }
        let r = split_lines(s + t0);
        assert(split_lines(s + t) == r.update(r.len() - 1, r.last().push(c)));
        assert(r.len() == sp.len());
        assert(r.last() == sp.last() + t0);
        assert((sp.last() + t0).push(c) =~= sp.last() + t);
        assert(split_lines(s + t) =~= sp.update(sp.len() - 1, sp.last() + t));
    }
}

proof fn lemma_split_render(board: SharedGameState, game: GameState, n: int)
    requires
        0 <= n,
    ensures
        split_lines(render_rows(board, game, n)) == Seq::new(n as nat, |i: int| row_text(board, game, i)).push(
            Seq::<char>::empty(),
        ),
    decreases n,
{
    if n == 0 {
        assert(render_rows(board, game, 0) =~= Seq::<char>::empty());
        assert(Seq::new(0, |i: int| row_text(board, game, i)).push(Seq::<char>::empty()) =~= seq![
            Seq::<char>::empty(),
        ]);
    } else {
        lemma_split_render(board, game, n - 1);
        let prev = render_rows(board, game, n - 1);
        let rt = row_text(board, game, n - 1);
        assert(render_rows(board, game, n) =~= (prev + rt).push('\n'));
        assert forall|k: int| 0 <= k < rt.len() implies rt[k] != '\n' by {}
        lemma_split_append(prev, rt);
        assert((prev + rt).push('\n').drop_last() =~= prev + rt);
        let rows0 = Seq::new((n - 1) as nat, |i: int| row_text(board, game, i));
        assert(split_lines(prev).last() + rt =~= rt);
        assert(split_lines(prev + rt) =~= rows0.push(rt));
        assert(rows0.push(rt) =~= Seq::new(n as nat, |i: int| row_text(board, game, i)));
    }
}

proof fn lemma_clean_rows(rows: Seq<Seq<char>>)
    requires
        forall|i: int| 0 <= i < rows.len() ==> (#[trigger] rows[i]).len() > 0 && rows[i].last() != '\r',
    ensures
        clean_lines(rows) == rows,
    decreases rows.len(),
{
    if rows.len() > 0 {
        lemma_clean_rows(rows.drop_last());
        assert(rows.drop_last().push(rows.last()) =~= rows);
    } else {
        assert(clean_lines(rows) =~= rows);
    }
}

proof fn lemma_max_len_const(ls: Seq<Seq<char>>, n: int, w: nat)
    requires
        0 <= n <= ls.len(),
        forall|i: int| 0 <= i < ls.len() ==> (#[trigger] ls[i]).len() == w,
    ensures
        max_len(ls, n) == if n == 0 { 0 } else { w },
    decreases n,
{
    if n > 0 {
        lemma_max_len_const(ls, n - 1, w);
    }
}

/// Rendering a state and parsing the text gives back the board and the
/// state, when the board is a non-empty rectangle, the player stands on a
/// walkable cell without a box, and every box stands on a walkable cell.
pub proof fn lemma_parse_render_round_trip(
    board: SharedGameState,
    game: GameState,
    parsed_game: GameState,
    parsed_board: SharedGameState,
)
    requires
        board.wf(),
        board.spec_height() > 0,
        board.spec_width() > 0,
        game.environment.wf(),
        board.spec_walkable_at(game.player),
        !game.environment.box_set().contains(game.player),
        forall|p: Vec2| #[trigger] game.environment.box_set().contains(p) ==> board.spec_walkable_at(p),
        parses_to(render_rows(board, game, board.spec_height()), parsed_game, parsed_board),
    ensures
        level_fits(render_rows(board, game, board.spec_height())),
        parsed_board.grid@.len() == board.grid@.len(),
        forall|i: int| 0 <= i < board.grid@.len() ==> (#[trigger] parsed_board.grid@[i])@ == board.grid@[i]@,
        parsed_game.environment.boxes@ == game.environment.boxes@,
        parsed_game.player == game.player,
{
    let h = board.spec_height();
    let w = board.spec_width();
    let text = render_rows(board, game, h);
    let rows = Seq::new(h as nat, |i: int| row_text(board, game, i));
    lemma_split_render(board, game, h);
    assert(clean_lines(split_lines(text)) == clean_lines(rows)) by {
        let sp = split_lines(text);
        assert(sp.drop_last() =~= rows);
        assert(strip_cr(sp.last()) =~= Seq::<char>::empty());
    }
    assert forall|i: int| 0 <= i < rows.len() implies (#[trigger] rows[i]).len() > 0 && rows[i].last() != '\r' by {
        assert(rows[i] == row_text(board, game, i));
    }
    lemma_clean_rows(rows);
    let lines = level_lines(text);
    assert(lines == rows);
    assert forall|i: int| 0 <= i < lines.len() implies (#[trigger] lines[i]).len() == w as nat by {}
    lemma_max_len_const(lines, lines.len() as int, w as nat);
    assert(level_width(text) == w);
    // the board
    assert forall|i: int| 0 <= i < h implies (#[trigger] parsed_board.grid@[i])@ == board.grid@[i]@ by {
        assert(parsed_board.grid@[i]@.len() == w);
        assert forall|j: int| 0 <= j < w implies parsed_board.grid@[i]@[j] == board.grid@[i]@[j] by {
            assert(parsed_board.grid@[i]@[j] == cell_of_char(lines[i][j]));
        }
        assert(parsed_board.grid@[i]@ =~= board.grid@[i]@);
    }
    // the boxes
    let set = game.environment.box_set();
    assert forall|p: Vec2| #[trigger] parsed_game.environment.box_set().contains(p) <==> set.contains(p) by {
        if set.contains(p) {
            assert(board.spec_walkable_at(p));
            assert(mk_pos(p.i as int, p.j as int) == p);
            assert(has_char(lines, p));
            assert(p != game.player);
            assert(box_at(lines, p));
        }
        if box_at(lines, p) {
            assert(mk_pos(p.i as int, p.j as int) == p);
        }
    }
    assert(parsed_game.environment.box_set() =~= set);
    crate::box_set::lemma_sorted_unique(parsed_game.environment.boxes@, game.environment.boxes@);
    // the player
    let pl = game.player;
    assert(mk_pos(pl.i as int, pl.j as int) == pl);
    assert(player_at(lines, pl));
    assert forall|p: Vec2| #[trigger] player_at(lines, p) implies p == pl by {
        assert(mk_pos(p.i as int, p.j as int) == p);
    }
    assert(player_at(lines, parsed_game.player));
}

/// Why a level text was rejected.
#[derive(Clone, Copy, PartialEq, Eq, Debug, Structural)]
pub enum ParseError {
    /// More than 127 rows or columns.
    TooLarge,
    /// No player glyph, or more than one.
    PlayerCount,
}

/// Exactly one player glyph stands in `lines`.
pub open spec fn exactly_one_player(lines: Seq<Seq<char>>) -> bool {
    exists|p: Vec2| #[trigger] player_at(lines, p) && forall|q: Vec2| #[trigger] player_at(lines, q) ==> q == p
}

/// Whether exactly one player glyph stands in the rows.
fn single_player(lines: &Vec<Vec<char>>) -> (r: bool)
    requires
        lines@.len() <= 127,
        forall|i: int| 0 <= i < lines@.len() ==> (#[trigger] lines@[i])@.len() <= 127,
    ensures
        r == exactly_one_player(line_views(lines@)),
{
    let ghost lv = line_views(lines@);
    let mut first: Option<Vec2> = None;
    let mut second = false;
    let mut i: usize = 0;
    while i < lines.len()
        invariant
            lv == line_views(lines@),
            lines@.len() <= 127,
            forall|a: int| 0 <= a < lines@.len() ==> (#[trigger] lines@[a])@.len() <= 127,
            i <= lines@.len(),
            !second ==> match first {
                None => forall|p: Vec2| #[trigger] player_at(lv, p) ==> p.i >= i,
                Some(f) => player_at(lv, f) && f.i < i && forall|p: Vec2| #[trigger] player_at(lv, p) && p.i < i ==> p == f,
            },
            second ==> !exactly_one_player(lv),
        decreases lines@.len() - i,
    {
        let line = &lines[i];
        proof {
            assert(lv[i as int] == line@);
        }
        let mut j: usize = 0;
        while j < line.len()
            invariant
                lv == line_views(lines@),
                i < lines@.len(),
                line@ == lv[i as int],
                line@.len() <= 127,
                lines@.len() <= 127,
                j <= line@.len(),
                !second ==> match first {
                    None => forall|p: Vec2| #[trigger] player_at(lv, p) ==> (p.i > i || (p.i == i && p.j >= j)),
                    Some(f) => player_at(lv, f) && (f.i < i || (f.i == i && f.j < j)) && forall|p: Vec2|
                        #[trigger] player_at(lv, p) && (p.i < i || (p.i == i && p.j < j)) ==> p == f,
                },
                second ==> !exactly_one_player(lv),
            decreases line@.len() - j,
        {
            let c = line[j];
            if c == '@' || c == '+' {
                let pos = Vec2 { i: i as i8, j: j as i8 };
                proof {
                    assert(player_at(lv, pos));
                }
                if !second {
                    match first {
                        None => {
                            first = Some(pos);
                        },
                        Some(f) => {
                            proof {
                                assert(f != pos);
                                assert forall|p: Vec2| player_at(lv, p) implies !(forall|q: Vec2| #[trigger] player_at(lv, q) ==> q == p) by {
                                    if p == f {
                                        assert(player_at(lv, pos));
                                    } else {
                                        assert(player_at(lv, f));
                                    }
                                }
                            }
                            second = true;
                        },
                    }
                }
            }
            proof {
                if !second {
                    match first {
                        None => {
                            assert forall|p: Vec2| #[trigger] player_at(lv, p) implies (p.i > i || (p.i == i && p.j >= j + 1)) by {
                                if p.i == i && p.j == j {
                                    assert(lv[i as int][j as int] == c);
                                }
                            }
                        },
                        Some(f) => {
                            assert forall|p: Vec2| #[trigger] player_at(lv, p) && (p.i < i || (p.i == i && p.j < j + 1)) implies p == f by {
                                if p.i == i && p.j == j {
                                    assert(lv[i as int][j as int] == c);
                                    assert(p == (Vec2 { i: i as i8, j: j as i8 }));
                                }
                            }
                        },
                    }
                }
            }
            j += 1;
        }
        proof {
            if !second {
                match first {
                    None => {
                        assert forall|p: Vec2| #[trigger] player_at(lv, p) implies p.i >= i + 1 by {
                            if p.i == i {
                                assert(p.j < line@.len());
                            }
                        }
                    },
                    Some(f) => {
                        assert forall|p: Vec2| #[trigger] player_at(lv, p) && p.i < i + 1 implies p == f by {
                            if p.i == i {
                                assert(p.j < line@.len());
                            }
                        }
                    },
                }
            }
        }
        i += 1;
    }
    if second {
        return false;
    }
    match first {
        None => {
            proof {
                assert forall|p: Vec2| !player_at(lv, p) by {
                    if player_at(lv, p) {
                        assert(p.i < lines@.len());
                    }
                }
            }
            false
        },
        Some(f) => {
            proof {
                assert forall|q: Vec2| #[trigger] player_at(lv, q) implies q == f by {
                    assert(q.i < lines@.len());
                }
                assert(player_at(lv, f));
            }
            true
        },
    }
}

/// Parses a level text, rejecting one that exceeds 127 rows or columns or
/// that does not hold exactly one player glyph.
pub fn try_parse_level(s: &str) -> (r: Result<(GameState, SharedGameState), ParseError>)
    ensures
        match r {
            Ok(v) => level_fits(s@) && exactly_one_player(level_lines(s@)) && parses_to(s@, v.0, v.1) && v.1.wf(),
            Err(ParseError::TooLarge) => !level_fits(s@),
            Err(ParseError::PlayerCount) => level_fits(s@) && !exactly_one_player(level_lines(s@)),
        },
{
    let chars = collect_chars(s);
    let lines = split_rows(&chars);
    let w = max_width(&lines);
    if lines.len() > 127 || w > 127 {
        return Err(ParseError::TooLarge);
    }
    proof {
        assert forall|i: int| 0 <= i < lines@.len() implies (#[trigger] lines@[i])@.len() <= 127 by {
            lemma_max_len(line_views(lines@), lines@.len() as int, i);
            assert(line_views(lines@)[i] == lines@[i]@);
        }
    }
    if !single_player(&lines) {
        return Err(ParseError::PlayerCount);
    }
    Ok(parse_level(s))
}

} // verus!
