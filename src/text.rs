//! The text grid format: `#` for a live cell, any other character for a dead
//! one, one row per line; positions are `[row, column]`.

use vstd::prelude::*;
use vstd::std_specs::iter::IteratorSpec;
use vstd::string::StringExecFns;
use crate::life::LifeStates;
use crate::world::{CellView, World, world_view};

verus! {

/// The pieces of `s` between `\n` characters, in order; there is always
/// one more piece than there are line breaks.
pub open spec fn segments(s: Seq<char>) -> Seq<Seq<char>>
    decreases s.len(),
{
    if s.len() == 0 {
        seq![Seq::empty()]
    } else {
        let prev = segments(s.drop_last());
        if s.last() == '\n' {
            prev.push(Seq::empty())
        } else {
            prev.update(prev.len() - 1, prev.last().push(s.last()))
        }
    }
}

/// A line without the `\r` of a `\r\n` line ending.
pub open spec fn strip_cr(line: Seq<char>) -> Seq<char> {
    if line.len() > 0 && line.last() == '\r' {
        line.drop_last()
    } else {
        line
    }
}

/// The lines of `s`: lines end at `\n` or `\r\n`, and the last line needs
/// no line ending; an empty piece after the last line break is no line.
pub open spec fn lines(s: Seq<char>) -> Seq<Seq<char>> {
    let segs = segments(s);
    let ended = segs.drop_last().map_values(|l: Seq<char>| strip_cr(l));
    if segs.last().len() == 0 {
        ended
    } else {
        ended.push(segs.last())
    }
}

/// The state a character stands for.
pub open spec fn state_of(c: char) -> LifeStates {
    if c == '#' {
        LifeStates::Alive
    } else {
        LifeStates::Dead
    }
}

/// The cells of one line of text, found at row `row`.
pub open spec fn row_cells(line: Seq<char>, row: int) -> Seq<CellView<LifeStates>> {
    Seq::new(line.len(), |j: int| (state_of(line[j]), seq![row as i64, j as i64]))
}

/// The cells of a sequence of rows, row by row, each left to right.
pub open spec fn cells_of_rows(rows: Seq<Seq<char>>) -> Seq<CellView<LifeStates>>
    decreases rows.len(),
{
    if rows.len() == 0 {
        Seq::empty()
    } else {
        cells_of_rows(rows.drop_last()) + row_cells(rows.last(), rows.len() - 1)
    }
}

/// The world that a text grid describes.
pub open spec fn decoded(s: Seq<char>) -> Seq<CellView<LifeStates>> {
    cells_of_rows(lines(s))
}

proof fn lemma_segments_shape(s: Seq<char>)
    ensures
        segments(s).len() >= 1,
        segments(s).len() - 1 + segments(s).last().len() <= s.len(),
        forall|k: int| 0 <= k < segments(s).len() ==> #[trigger] segments(s)[k].len() <= s.len(),
    decreases s.len(),
{
    if s.len() > 0 {
        lemma_segments_shape(s.drop_last());
    }
}

fn state_of_char(c: char) -> (r: LifeStates)
    ensures
        r == state_of(c),
{
    if c == '#' {
        LifeStates::Alive
    } else {
        LifeStates::Dead
    }
}

/// Appends the cells of the first `len` characters of `line` at row `row`.
fn push_row(out: &mut World<LifeStates>, line: &Vec<char>, len: usize, row: i64)
    requires
        len <= line.len(),
        line.len() <= i64::MAX,
    ensures
        world_view(final(out)@) == world_view(old(out)@) + row_cells(line@.take(len as int), row as int),
{
    let ghost start = world_view(out@);
    let mut j: usize = 0;
    while j < len
        invariant
            j <= len,
            len <= line.len(),
            line.len() <= i64::MAX,
            world_view(out@) == start + row_cells(line@.take(j as int), row as int),
        decreases len - j,
    {
        let mut pos: Vec<i64> = Vec::new();
        pos.push(row);
        pos.push(j as i64);
        let ghost before = world_view(out@);
        let st = state_of_char(line[j]);
        out.push((st, pos));
        proof {
            assert(pos@ =~= seq![row, j as i64]);
            assert(world_view(out@) =~= before.push((st, pos@)));
            assert(row_cells(line@.take(j as int + 1), row as int) =~= row_cells(
                line@.take(j as int),
                row as int,
            ).push((st, pos@)));
            assert(world_view(out@) =~= start + row_cells(line@.take(j as int + 1), row as int));
        }
        j = j + 1;
    }
}

/// Decodes a text grid: the `j`-th character of the `i`-th line becomes a
/// cell at `[i, j]`, alive for `#` and dead for anything else. Lines may
/// differ in length, and empty lines are kept as rows without cells.
/// Coordinates are `i64`, so the text holds at most `i64::MAX` characters.
pub fn generate_world(text: &str) -> (r: World<LifeStates>)
    requires
        text@.len() <= i64::MAX,
    ensures
        world_view(r@) == decoded(text@),
{
    broadcast use vstd::string::group_string_axioms;

    let mut out: World<LifeStates> = Vec::new();
    let mut cur: Vec<char> = Vec::new();
    let mut row: i64 = 0;
    let mut it = text.chars();
    let ghost mut k: int = 0;
    proof {
        assert(text@.take(0) =~= Seq::<char>::empty());
        assert(cur@ =~= Seq::<char>::empty());
    }
    loop
        invariant
            0 <= k <= text@.len(),
            text@.len() <= i64::MAX,
            it.remaining() == text@.skip(k),
            cur@ == segments(text@.take(k)).last(),
            row == segments(text@.take(k)).len() - 1,
            world_view(out@) == cells_of_rows(
                segments(text@.take(k)).drop_last().map_values(|l: Seq<char>| strip_cr(l)),
            ),
        ensures
            k == text@.len(),
            cur@ == segments(text@.take(k)).last(),
            row == segments(text@.take(k)).len() - 1,
            world_view(out@) == cells_of_rows(
                segments(text@.take(k)).drop_last().map_values(|l: Seq<char>| strip_cr(l)),
            ),
        decreases text@.len() - k,
    {
        let ghost pre = text@.take(k);
        proof {
            lemma_segments_shape(pre);
        }
        match it.next() {
            None => {
                proof {
                    assert(text@.skip(k).len() == 0);
                }
                break;
            },
            Some(c) => {
                proof {
                    assert(text@.take(k + 1).drop_last() =~= pre);
                }
                let ghost segs = segments(pre);
                let ghost ended = segs.drop_last().map_values(|l: Seq<char>| strip_cr(l));
                if c == '\n' {
                    let n = cur.len();
                    let keep = if n > 0 && cur[n - 1] == '\r' {
                        n - 1
                    } else {
                        n
                    };
                    push_row(&mut out, &cur, keep, row);
                    proof {
                        assert(cur@.take(keep as int) =~= strip_cr(cur@));
                        let nsegs = segments(text@.take(k + 1));
                        assert(nsegs.drop_last().map_values(|l: Seq<char>| strip_cr(l)).drop_last()
                            =~= ended);
                    }
                    cur = Vec::new();
                    row = row + 1;
                    proof {
                        assert(cur@ =~= Seq::<char>::empty());
                    }
                } else {
                    cur.push(c);
                    proof {
                        let nsegs = segments(text@.take(k + 1));
                        assert(nsegs.drop_last() =~= segs.drop_last());
                        assert(cur@ =~= nsegs.last());
                    }
                }
                proof {
                    k = k + 1;
                }
            },
        }
    }
    proof {
        assert(text@.take(k) =~= text@);
        lemma_segments_shape(text@);
    }
    if cur.len() > 0 {
        let n = cur.len();
        push_row(&mut out, &cur, n, row);
        proof {
            assert(cur@.take(n as int) =~= cur@);
            let segs = segments(text@);
            let ended = segs.drop_last().map_values(|l: Seq<char>| strip_cr(l));
            assert(ended.push(segs.last()).drop_last() =~= ended);
        }
    }
    out
}

/// The last coordinate of a position, if it has any.
pub open spec fn last_coord(p: Seq<i64>) -> Option<i64> {
    if p.len() == 0 {
        None
    } else {
        Some(p.last())
    }
}

/// The order on keys: no coordinate comes before every coordinate.
pub open spec fn key_le(a: Option<i64>, b: Option<i64>) -> bool {
    match (a, b) {
        (None, _) => true,
        (Some(_), None) => false,
        (Some(x), Some(y)) => x <= y,
    }
}

/// The greatest last coordinate over the cells of `world`.
pub open spec fn max_column(world: Seq<CellView<LifeStates>>) -> Option<i64>
    decreases world.len(),
{
    if world.len() == 0 {
        None
    } else {
        let m = max_column(world.drop_last());
        let k = last_coord(world.last().1);
        if key_le(m, k) {
            k
        } else {
            m
        }
    }
}

/// The character a state is written as.
pub open spec fn glyph(s: LifeStates) -> char {
    match s {
        LifeStates::Alive => '#',
        LifeStates::Dead => '0',
    }
}

/// The text of one cell: its glyph, and a line break where its column is
/// the last column `last`.
pub open spec fn cell_text(c: CellView<LifeStates>, last: Option<i64>) -> Seq<char> {
    if last_coord(c.1) == last {
        seq![glyph(c.0), '\n']
    } else {
        seq![glyph(c.0)]
    }
}

/// The text of the cells of `world`, in order, with rows ending at column `last`.
pub open spec fn encode_with(world: Seq<CellView<LifeStates>>, last: Option<i64>) -> Seq<char>
    decreases world.len(),
{
    if world.len() == 0 {
        Seq::empty()
    } else {
        encode_with(world.drop_last(), last) + cell_text(world.last(), last)
    }
}

/// The text grid of a world, whose cells are taken to lie in row-major order.
pub open spec fn encoded(world: Seq<CellView<LifeStates>>) -> Seq<char> {
    encode_with(world, max_column(world))
}

fn column_of(p: &Vec<i64>) -> (r: Option<i64>)
    ensures
        r == last_coord(p@),
{
    if p.len() == 0 {
        None
    } else {
        Some(p[p.len() - 1])
    }
}

fn column_le(a: Option<i64>, b: Option<i64>) -> (r: bool)
    ensures
        r == key_le(a, b),
{
    match (a, b) {
        (None, _) => true,
        (Some(_), None) => false,
        (Some(x), Some(y)) => x <= y,
    }
}

fn same_column(a: Option<i64>, b: Option<i64>) -> (r: bool)
    ensures
        r == (a == b),
{
    match (a, b) {
        (None, None) => true,
        (Some(x), Some(y)) => x == y,
        _ => false,
    }
}

/// Encodes a world as a text grid: each cell as `#` when alive and `0` when
/// dead, in the world's order, with a line break after every cell whose
/// last coordinate is the greatest in the world. An empty world gives no text.
pub fn encode_world(world: &World<LifeStates>) -> (r: String)
    ensures
        r@ == encoded(world_view(world@)),
{
    let ghost w = world_view(world@);
    let mut last: Option<i64> = None;
    let mut i: usize = 0;
    while i < world.len()
        invariant
            i <= world.len(),
            w == world_view(world@),
            last == max_column(w.take(i as int)),
        decreases world.len() - i,
    {
        proof {
            assert(w.take(i as int + 1).drop_last() =~= w.take(i as int));
        }
        let k = column_of(&world[i].1);
        if column_le(last, k) {
            last = k;
        }
        i = i + 1;
    }
    proof {
        assert(w.take(i as int) =~= w);
    }
    let mut out = String::new();
    let mut i: usize = 0;
    proof {
        reveal_strlit("#");
        reveal_strlit("0");
        reveal_strlit("\n");
        assert(out@ =~= encode_with(w.take(0), last));
    }
    while i < world.len()
        invariant
            i <= world.len(),
            w == world_view(world@),
            last == max_column(w),
            out@ == encode_with(w.take(i as int), last),
            "#"@ == seq!['#'],
            "0"@ == seq!['0'],
            "\n"@ == seq!['\n'],
        decreases world.len() - i,
    {
        proof {
            assert(w.take(i as int + 1).drop_last() =~= w.take(i as int));
        }
        let ghost before = out@;
        match world[i].0 {
            LifeStates::Alive => out.append("#"),
            LifeStates::Dead => out.append("0"),
        }
        if same_column(column_of(&world[i].1), last) {
            out.append("\n");
        }
        proof {
            assert(out@ =~= before + cell_text(w[i as int], last));
        }
        i = i + 1;
    }
    proof {
        assert(w.take(i as int) =~= w);
    }
    out
}

/// The canonical spelling of a grid character: `#` stays, anything else is `0`.
pub open spec fn canonical(c: char) -> char {
    if c == '#' {
        '#'
    } else {
        '0'
    }
}

/// The canonical text of a sequence of rows, each ended by a line break.
pub open spec fn render(rows: Seq<Seq<char>>) -> Seq<char>
    decreases rows.len(),
{
    if rows.len() == 0 {
        Seq::empty()
    } else {
        render(rows.drop_last()) + rows.last().map_values(|c: char| canonical(c)) + seq!['\n']
    }
}

proof fn lemma_lines_bounded(s: Seq<char>)
    ensures
        lines(s).len() <= s.len(),
        forall|k: int| 0 <= k < lines(s).len() ==> #[trigger] lines(s)[k].len() <= s.len(),
{
    lemma_segments_shape(s);
    let segs = segments(s);
    assert forall|k: int| 0 <= k < lines(s).len() implies #[trigger] lines(s)[k].len() <= s.len() by {
        assert(segs[k].len() <= s.len());
    }
}

proof fn lemma_max_column_le(world: Seq<CellView<LifeStates>>, m: i64)
    requires
        forall|i: int| 0 <= i < world.len() ==> key_le(last_coord(#[trigger] world[i].1), Some(m)),
    ensures
        key_le(max_column(world), Some(m)),
    decreases world.len(),
{
    if world.len() > 0 {
        let prev = world.drop_last();
        assert forall|i: int| 0 <= i < prev.len() implies key_le(last_coord(#[trigger] prev[i].1), Some(m)) by {
            assert(prev[i] == world[i]);
        }
        lemma_max_column_le(prev, m);
        assert(key_le(last_coord(world[world.len() - 1].1), Some(m)));
    }
}

proof fn lemma_cells_columns(rows: Seq<Seq<char>>, width: nat)
    requires
        1 <= width <= i64::MAX,
        forall|k: int| 0 <= k < rows.len() ==> (#[trigger] rows[k]).len() == width,
    ensures
        forall|i: int|
            0 <= i < cells_of_rows(rows).len() ==> key_le(
                last_coord(#[trigger] cells_of_rows(rows)[i].1),
                Some((width - 1) as i64),
            ),
    decreases rows.len(),
{
    if rows.len() > 0 {
        let prev = rows.drop_last();
        assert forall|k: int| 0 <= k < prev.len() implies (#[trigger] prev[k]).len() == width by {
            assert(prev[k] == rows[k]);
        }
        lemma_cells_columns(prev, width);
        let a = cells_of_rows(prev);
        let b = row_cells(rows.last(), rows.len() - 1);
        assert forall|i: int| 0 <= i < cells_of_rows(rows).len() implies key_le(
            last_coord(#[trigger] cells_of_rows(rows)[i].1),
            Some((width - 1) as i64),
        ) by {
            if i < a.len() {
                assert(cells_of_rows(rows)[i] == a[i]);
            } else {
                assert(cells_of_rows(rows)[i] == b[i - a.len()]);
            }
        }
    }
}

proof fn lemma_encode_concat(a: Seq<CellView<LifeStates>>, b: Seq<CellView<LifeStates>>, last: Option<i64>)
    ensures
        encode_with(a + b, last) == encode_with(a, last) + encode_with(b, last),
    decreases b.len(),
{
    if b.len() == 0 {
        assert(a + b =~= a);
        assert(encode_with(a, last) + encode_with(b, last) =~= encode_with(a, last));
    } else {
        assert((a + b).drop_last() =~= a + b.drop_last());
        lemma_encode_concat(a, b.drop_last(), last);
        assert(encode_with(a + b, last) =~= encode_with(a, last) + encode_with(b, last));
    }
}

proof fn lemma_encode_row(line: Seq<char>, row: int, n: int)
    requires
        1 <= line.len() <= i64::MAX,
        0 <= n <= line.len(),
    ensures
        encode_with(row_cells(line, row).take(n), Some((line.len() - 1) as i64)) == line.take(n).map_values(
            |c: char| canonical(c),
        ) + if n == line.len() {
            seq!['\n']
        } else {
            Seq::empty()
        },
    decreases n,
{
    let last = Some((line.len() - 1) as i64);
    let cells = row_cells(line, row);
    if n == 0 {
        assert(cells.take(0) =~= Seq::empty());
        assert(line.take(0).map_values(|c: char| canonical(c)) =~= Seq::empty());
    } else {
        lemma_encode_row(line, row, n - 1);
        assert(cells.take(n).drop_last() =~= cells.take(n - 1));
        assert(line.take(n).map_values(|c: char| canonical(c)) =~= line.take(n - 1).map_values(
            |c: char| canonical(c),
        ).push(canonical(line[n - 1])));
        assert(glyph(state_of(line[n - 1])) == canonical(line[n - 1]));
        assert(encode_with(cells.take(n), last) =~= line.take(n).map_values(|c: char| canonical(c))
            + if n == line.len() {
            seq!['\n']
        } else {
            Seq::empty()
        });
    }
}

proof fn lemma_encode_rows(rows: Seq<Seq<char>>, width: nat)
    requires
        1 <= width <= i64::MAX,
        forall|k: int| 0 <= k < rows.len() ==> (#[trigger] rows[k]).len() == width,
    ensures
        encode_with(cells_of_rows(rows), Some((width - 1) as i64)) == render(rows),
    decreases rows.len(),
{
    if rows.len() > 0 {
        let prev = rows.drop_last();
        assert forall|k: int| 0 <= k < prev.len() implies (#[trigger] prev[k]).len() == width by {
            assert(prev[k] == rows[k]);
        }
        lemma_encode_rows(prev, width);
        let last = rows.last();
        let b = row_cells(last, rows.len() - 1);
        lemma_encode_concat(cells_of_rows(prev), b, Some((width - 1) as i64));
        lemma_encode_row(last, rows.len() - 1, last.len() as int);
        assert(b.take(last.len() as int) =~= b);
        assert(last.take(last.len() as int) =~= last);
        assert(encode_with(cells_of_rows(rows), Some((width - 1) as i64)) =~= render(rows));
    }
}

/// Decoding a grid whose lines all have the same, non-zero, length and
/// encoding the result gives back the grid, with every character other
/// than `#` written as `0` and every line ended by a line break.
pub proof fn lemma_round_trip(s: Seq<char>, width: nat)
    requires
        s.len() <= i64::MAX,
        width >= 1,
        forall|k: int| 0 <= k < lines(s).len() ==> (#[trigger] lines(s)[k]).len() == width,
    ensures
        encoded(decoded(s)) == render(lines(s)),
{
    let rows = lines(s);
    lemma_lines_bounded(s);
    if rows.len() > 0 {
        assert(rows[0].len() == width);
        let m = Some((width - 1) as i64);
        let prev = rows.drop_last();
        let last = rows.last();
        let a = cells_of_rows(prev);
        let b = row_cells(last, rows.len() - 1);
        let world = cells_of_rows(rows);
        assert(world == a + b);
        lemma_cells_columns(rows, width);
        assert forall|i: int| 0 <= i < world.drop_last().len() implies key_le(
            last_coord(#[trigger] world.drop_last()[i].1),
            m,
        ) by {
            assert(world.drop_last()[i] == world[i]);
        }
        lemma_max_column_le(world.drop_last(), (width - 1) as i64);
        assert(world.last() == b[b.len() - 1]);
        assert(last_coord(world.last().1) == m);
        assert(max_column(world) == m);
        lemma_encode_rows(rows, width);
    } else {
        assert(decoded(s) =~= Seq::empty());
    }
}

} // verus!
