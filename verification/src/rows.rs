//! The paper reports as tables: rows of cells, with nothing but spaces between them.

use crate::json::value::{kind_name, Kind};
use crate::number::decimal;
use crate::report::{
    capped_on_paper, count_or_dash, field_on_paper, grouped, in_a_row, issue_on_paper,
    issues_on_paper, key_on_paper, lengths_on_paper, line_counts_on_paper, padded_left,
    padded_right, path_on_paper, schema_on_paper, skipped_on_paper, spaces, stats_on_paper,
    text_or, three_digits, type_on_paper, types_on_paper, value_on_paper, FieldDetail, Lengths,
};
use crate::schema::{PathStats, Schema};
use crate::stats::{FieldStats, Issue, KeyStats, Stats};
use vstd::prelude::*;

verus! {

/// Spaces.
pub open spec fn gap(n: nat) -> Seq<char> {
    Seq::new(n, |i: int| ' ')
}

/// Cells in a row, with spaces before each.
pub open spec fn laid_out(cells: Seq<Seq<char>>, gaps: Seq<nat>) -> Seq<char>
    decreases cells.len(),
{
    if cells.len() == 0 {
        Seq::empty()
    } else {
        laid_out(cells.drop_last(), gaps.drop_last()) + gap(gaps.last()) + cells.last()
    }
}

/// There is a space before every cell but the first.
pub open spec fn spaced(gaps: Seq<nat>) -> bool {
    forall|k: int| 1 <= k < gaps.len() ==> #[trigger] gaps[k] > 0
}

/// A text is cells in a row, and spaces after them.
pub open spec fn holds_cells(text: Seq<char>, cells: Seq<Seq<char>>, after: nat) -> bool {
    exists|gaps: Seq<nat>|
        gaps.len() == cells.len() && spaced(gaps) && text == #[trigger] laid_out(cells, gaps) + gap(
            after,
        )
}

/// A text is one line that holds the cells in a row, with nothing but spaces around
/// and between them.
pub open spec fn is_row(text: Seq<char>, cells: Seq<Seq<char>>) -> bool {
    exists|line: Seq<char>, after: nat|
        #[trigger] holds_cells(line, cells, after) && text == line + seq!['\n']
}

/// A text is some lines, one for each row of a table.
pub open spec fn shows(text: Seq<char>, table: Seq<Seq<Seq<char>>>) -> bool {
    exists|rows: Seq<Seq<char>>|
        rows.len() == table.len() && text == #[trigger] rows.flatten_alt() && forall|i: int|
            0 <= i < rows.len() ==> is_row(#[trigger] rows[i], table[i])
}

/// The types of some values, each with its count.
pub open spec fn type_cells(types: Seq<(Kind, nat)>) -> Seq<Seq<char>> {
    types.map_values(|pair: (Kind, nat)| kind_name(pair.0) + seq![':'] + grouped(pair.1))
}

/// A text starts with the rows of a table and goes on with cells of the next row.
#[verifier::opaque]
spec fn so_far(
    text: Seq<char>,
    table: Seq<Seq<Seq<char>>>,
    cells: Seq<Seq<char>>,
    after: nat,
) -> bool {
    exists|done: Seq<char>, line: Seq<char>|
        #[trigger] shows(done, table) && #[trigger] holds_cells(line, cells, after) && text == done
            + line
}

proof fn lemma_nothing_shown()
    ensures
        so_far(Seq::empty(), Seq::empty(), Seq::empty(), 0),
{
    reveal(so_far);
    let none = Seq::<char>::empty();
    let rows = Seq::<Seq<char>>::empty();
    assert(rows.flatten_alt() =~= none);
    assert(shows(none, Seq::empty()));
    let gaps = Seq::<nat>::empty();
    assert(laid_out(Seq::empty(), gaps) + gap(0) =~= none);
    assert(holds_cells(none, Seq::empty(), 0));
    assert(none + none =~= none);
}

proof fn lemma_all_shown(text: Seq<char>, table: Seq<Seq<Seq<char>>>)
    requires
        so_far(text, table, Seq::empty(), 0),
    ensures
        shows(text, table),
{
    reveal(so_far);
    let (done, line) = choose|done: Seq<char>, line: Seq<char>|
        #[trigger] shows(done, table) && #[trigger] holds_cells(line, Seq::empty(), 0) && text
            == done + line;
    assert(line.len() == 0);
    assert(text =~= done);
}

proof fn lemma_gap(
    text: Seq<char>,
    table: Seq<Seq<Seq<char>>>,
    cells: Seq<Seq<char>>,
    after: nat,
    n: nat,
)
    requires
        so_far(text, table, cells, after),
    ensures
        so_far(text + gap(n), table, cells, after + n),
{
    reveal(so_far);
    let (done, line) = choose|done: Seq<char>, line: Seq<char>|
        #[trigger] shows(done, table) && #[trigger] holds_cells(line, cells, after) && text == done
            + line;
    let gaps = choose|gaps: Seq<nat>|
        gaps.len() == cells.len() && spaced(gaps) && line == #[trigger] laid_out(cells, gaps) + gap(
            after,
        );
    assert(line + gap(n) =~= laid_out(cells, gaps) + gap(after + n));
    assert(holds_cells(line + gap(n), cells, after + n));
    assert(text + gap(n) =~= done + (line + gap(n)));
}

proof fn lemma_cell(
    text: Seq<char>,
    table: Seq<Seq<Seq<char>>>,
    cells: Seq<Seq<char>>,
    after: nat,
    cell: Seq<char>,
)
    requires
        so_far(text, table, cells, after),
        cells.len() > 0 ==> after > 0,
    ensures
        so_far(text + cell, table, cells.push(cell), 0),
{
    reveal(so_far);
    let (done, line) = choose|done: Seq<char>, line: Seq<char>|
        #[trigger] shows(done, table) && #[trigger] holds_cells(line, cells, after) && text == done
            + line;
    let gaps = choose|gaps: Seq<nat>|
        gaps.len() == cells.len() && spaced(gaps) && line == #[trigger] laid_out(cells, gaps) + gap(
            after,
        );
    let more = gaps.push(after);
    assert(cells.push(cell).drop_last() =~= cells);
    assert(more.drop_last() =~= gaps);
    assert(spaced(more)) by {
        assert forall|k: int| 1 <= k < more.len() implies #[trigger] more[k] > 0 by {
            if k < gaps.len() {
                assert(more[k] == gaps[k]);
            }
        }
    }
    assert(line + cell =~= laid_out(cells.push(cell), more) + gap(0));
    assert(holds_cells(line + cell, cells.push(cell), 0));
    assert(text + cell =~= done + (line + cell));
}

proof fn lemma_glue(
    text: Seq<char>,
    table: Seq<Seq<Seq<char>>>,
    cells: Seq<Seq<char>>,
    more: Seq<char>,
)
    requires
        so_far(text, table, cells, 0),
        cells.len() > 0,
    ensures
        so_far(text + more, table, cells.drop_last().push(cells.last() + more), 0),
{
    reveal(so_far);
    let (done, line) = choose|done: Seq<char>, line: Seq<char>|
        #[trigger] shows(done, table) && #[trigger] holds_cells(line, cells, 0) && text == done
            + line;
    let gaps = choose|gaps: Seq<nat>|
        gaps.len() == cells.len() && spaced(gaps) && line == #[trigger] laid_out(cells, gaps) + gap(
            0,
        );
    let glued = cells.drop_last().push(cells.last() + more);
    assert(glued.drop_last() =~= cells.drop_last());
    assert(line + more =~= laid_out(glued, gaps) + gap(0));
    assert(holds_cells(line + more, glued, 0));
    assert(text + more =~= done + (line + more));
}

proof fn lemma_flatten_concat(a: Seq<Seq<char>>, b: Seq<Seq<char>>)
    ensures
        (a + b).flatten_alt() == a.flatten_alt() + b.flatten_alt(),
    decreases b.len(),
{
    if b.len() > 0 {
        assert((a + b).drop_last() =~= a + b.drop_last());
        lemma_flatten_concat(a, b.drop_last());
        assert((a + b).flatten_alt() =~= a.flatten_alt() + b.flatten_alt());
    } else {
        assert(a + b =~= a);
        assert(a.flatten_alt() + b.flatten_alt() =~= a.flatten_alt());
    }
}

proof fn lemma_shows_concat(
    a: Seq<char>,
    b: Seq<char>,
    first: Seq<Seq<Seq<char>>>,
    then: Seq<Seq<Seq<char>>>,
)
    requires
        shows(a, first),
        shows(b, then),
    ensures
        shows(a + b, first + then),
{
    let r = choose|rows: Seq<Seq<char>>|
        rows.len() == first.len() && a == #[trigger] rows.flatten_alt() && forall|i: int|
            0 <= i < rows.len() ==> is_row(#[trigger] rows[i], first[i]);
    let s = choose|rows: Seq<Seq<char>>|
        rows.len() == then.len() && b == #[trigger] rows.flatten_alt() && forall|i: int|
            0 <= i < rows.len() ==> is_row(#[trigger] rows[i], then[i]);
    lemma_flatten_concat(r, s);
    let all = r + s;
    let table = first + then;
    assert forall|i: int| 0 <= i < all.len() implies is_row(#[trigger] all[i], table[i]) by {
        if i < r.len() {
            assert(all[i] == r[i]);
        } else {
            assert(all[i] == s[i - r.len()]);
        }
    }
    assert(a + b == all.flatten_alt());
}

proof fn lemma_shows_row(row: Seq<char>, cells: Seq<Seq<char>>)
    requires
        is_row(row, cells),
    ensures
        shows(row, seq![cells]),
{
    let rows = seq![row];
    assert(rows.drop_last() =~= Seq::empty());
    assert(rows.drop_last().flatten_alt() =~= Seq::empty());
    assert(rows.flatten_alt() =~= row);
    assert(row == rows.flatten_alt());
}

proof fn lemma_newline(
    text: Seq<char>,
    table: Seq<Seq<Seq<char>>>,
    cells: Seq<Seq<char>>,
    after: nat,
)
    requires
        so_far(text, table, cells, after),
    ensures
        so_far(text + seq!['\n'], table.push(cells), Seq::empty(), 0),
{
    reveal(so_far);
    let (done, line) = choose|done: Seq<char>, line: Seq<char>|
        #[trigger] shows(done, table) && #[trigger] holds_cells(line, cells, after) && text == done
            + line;
    let row = line + seq!['\n'];
    assert(is_row(row, cells));
    lemma_shows_row(row, cells);
    lemma_shows_concat(done, row, table, seq![cells]);
    assert(table + seq![cells] =~= table.push(cells));
    let none = Seq::<char>::empty();
    let gaps = Seq::<nat>::empty();
    assert(laid_out(Seq::empty(), gaps) + gap(0) =~= none);
    assert(holds_cells(none, Seq::empty(), 0));
    assert(text + seq!['\n'] =~= done + row + none);
}

proof fn lemma_rows(
    text: Seq<char>,
    table: Seq<Seq<Seq<char>>>,
    more: Seq<char>,
    rows: Seq<Seq<Seq<char>>>,
)
    requires
        so_far(text, table, Seq::empty(), 0),
        shows(more, rows),
    ensures
        so_far(text + more, table + rows, Seq::empty(), 0),
{
    reveal(so_far);
    lemma_all_shown(text, table);
    lemma_shows_concat(text, more, table, rows);
    let none = Seq::<char>::empty();
    let gaps = Seq::<nat>::empty();
    assert(laid_out(Seq::empty(), gaps) + gap(0) =~= none);
    assert(holds_cells(none, Seq::empty(), 0));
    assert(text + more =~= text + more + none);
}

proof fn lemma_types_shown(
    text: Seq<char>,
    table: Seq<Seq<Seq<char>>>,
    cells: Seq<Seq<char>>,
    after: nat,
    types: Seq<(Kind, nat)>,
)
    requires
        so_far(text, table, cells, after),
        after > 0,
    ensures
        so_far(
            text + types_on_paper(types),
            table,
            cells + type_cells(types),
            if types.len() == 0 {
                after
            } else {
                0
            },
        ),
    decreases types.len(),
{
    let parts = types.map_values(|p: (Kind, nat)| type_on_paper(p));
    reveal_strlit(":");
    reveal_strlit(" ");
    if types.len() == 0 {
        assert(text + types_on_paper(types) =~= text);
        assert(cells + type_cells(types) =~= cells);
    } else {
        let head = types.drop_last();
        let last = types.last();
        lemma_types_shown(text, table, cells, after, head);
        let before = text + types_on_paper(head);
        assert(parts.drop_last() =~= head.map_values(|p: (Kind, nat)| type_on_paper(p)));
        assert(parts.last() == type_on_paper(last));
        let cell = kind_name(last.0) + seq![':'] + grouped(last.1);
        assert(type_on_paper(last) =~= cell);
        assert(type_cells(types) =~= type_cells(head).push(cell));
        assert(cells + type_cells(types) =~= (cells + type_cells(head)).push(cell));
        if head.len() == 0 {
            assert(parts[0] == cell);
            assert(types_on_paper(types) =~= cell);
            assert(types_on_paper(head) =~= Seq::empty());
            assert(before =~= text);
            lemma_cell(before, table, cells + type_cells(head), after, cell);
        } else {
            lemma_gap(before, table, cells + type_cells(head), 0, 1);
            assert(gap(1) =~= " "@);
            lemma_cell(before + gap(1), table, cells + type_cells(head), 1, cell);
            assert(before + gap(1) + cell =~= text + types_on_paper(types));
        }
    }
}

/// What stands in some places, one after another, shows their tables in a row.
proof fn lemma_tables(parts: Seq<Seq<char>>, tables: Seq<Seq<Seq<Seq<char>>>>)
    requires
        parts.len() == tables.len(),
        forall|i: int| 0 <= i < parts.len() ==> shows(#[trigger] parts[i], tables[i]),
    ensures
        shows(in_a_row(parts), tables.flatten_alt()),
    decreases parts.len(),
{
    if parts.len() == 0 {
        lemma_nothing_shown();
        lemma_all_shown(Seq::empty(), Seq::empty());
        assert(tables.flatten_alt() =~= Seq::empty());
    } else {
        assert forall|i: int| 0 <= i < parts.drop_last().len() implies shows(
            #[trigger] parts.drop_last()[i],
            tables.drop_last()[i],
        ) by {
            assert(shows(parts[i], tables[i]));
        }
        lemma_tables(parts.drop_last(), tables.drop_last());
        assert(shows(parts[parts.len() - 1], tables[tables.len() - 1]));
        lemma_shows_concat(
            in_a_row(parts.drop_last()),
            parts.last(),
            tables.drop_last().flatten_alt(),
            tables.last(),
        );
    }
}

proof fn lemma_may_be_capped(
    text: Seq<char>,
    table: Seq<Seq<Seq<char>>>,
    cells: Seq<Seq<char>>,
    capped: bool,
)
    requires
        so_far(text, table, cells, 0),
        cells.len() > 0,
    ensures
        so_far(
            text + if capped {
                " (capped)"@
            } else {
                ""@
            },
            table,
            cells + if capped {
                seq!["(capped)"@]
            } else {
                Seq::empty()
            },
            0,
        ),
{
    reveal_strlit(" (capped)");
    reveal_strlit("(capped)");
    reveal_strlit("");
    if capped {
        lemma_gap(text, table, cells, 0, 1);
        lemma_cell(text + gap(1), table, cells, 1, "(capped)"@);
        assert(text + gap(1) + "(capped)"@ =~= text + " (capped)"@);
        assert(cells + seq!["(capped)"@] =~= cells.push("(capped)"@));
    } else {
        assert(text + ""@ =~= text);
        assert(cells + Seq::<Seq<char>>::empty() =~= cells);
    }
}

/// The spaces that fill a text up to a width.
spec fn room(s: Seq<char>, width: int) -> nat {
    if width > s.len() {
        (width - s.len()) as nat
    } else {
        0
    }
}

/// What a report shows of a key.
pub open spec fn key_table(key: KeyStats, percent: Seq<char>) -> Seq<Seq<Seq<char>>> {
    seq![seq![key.key@, grouped(key.count as nat), percent + "%"@] + type_cells(key.types@)]
}

#[verifier::spinoff_prover]
proof fn lemma_key_shown(key: KeyStats, percent: Seq<char>)
    ensures
        shows(key_on_paper(key, percent), key_table(key, percent)),
{
    lemma_nothing_shown();
    let none = Seq::<char>::empty();
    let b0 = Seq::<Seq<Seq<char>>>::empty();
    let c0 = Seq::<Seq<char>>::empty();
    let t1 = none + "  "@;
    assert(t1 =~= none + gap(2)) by {
        reveal_strlit("  ");
    }
    lemma_gap(none, b0, c0, 0, 2);
    let g1 = room(key.key@, 24);
    let t2 = t1 + padded_right(key.key@, 24);
    assert(spaces(24 - key.key@.len()) =~= gap(g1));
    assert(t2 =~= t1 + key.key@ + gap(g1));
    lemma_cell(t1, b0, c0, 2, key.key@);
    let c1 = c0.push(key.key@);
    lemma_gap(t1 + key.key@, b0, c1, 0, g1);
    let t3 = t2 + " "@;
    assert(t3 =~= t2 + gap(1)) by {
        reveal_strlit(" ");
    }
    lemma_gap(t2, b0, c1, g1, 1);
    let g2 = room(grouped(key.count as nat), 10);
    let t4 = t3 + padded_left(grouped(key.count as nat), 10);
    assert(spaces(10 - grouped(key.count as nat).len()) =~= gap(g2));
    assert(t4 =~= t3 + gap(g2) + grouped(key.count as nat));
    lemma_gap(t3, b0, c1, (g1 + 1) as nat, g2);
    lemma_cell(t3 + gap(g2), b0, c1, ((g1 + 1) as nat + g2) as nat, grouped(key.count as nat));
    let c2 = c1.push(grouped(key.count as nat));
    let t5 = t4 + "  "@;
    assert(t5 =~= t4 + gap(2)) by {
        reveal_strlit("  ");
    }
    lemma_gap(t4, b0, c2, 0, 2);
    let g3 = room(percent, 5);
    let t6 = t5 + padded_left(percent, 5);
    assert(spaces(5 - percent.len()) =~= gap(g3));
    assert(t6 =~= t5 + gap(g3) + percent);
    lemma_gap(t5, b0, c2, 2, g3);
    lemma_cell(t5 + gap(g3), b0, c2, (2 + g3) as nat, percent);
    let c3 = c2.push(percent);
    let t7 = t6 + "%  "@;
    assert(t7 =~= t6 + "%"@ + gap(2)) by {
        reveal_strlit("%  ");
        reveal_strlit("%");
    }
    lemma_glue(t6, b0, c3, "%"@);
    let c4 = c3.drop_last().push(c3.last() + "%"@);
    lemma_gap(t6 + "%"@, b0, c4, 0, 2);
    lemma_types_shown(t7, b0, c4, 2, key.types@);
    let c5 = c4 + type_cells(key.types@);
    let t8 = t7 + types_on_paper(key.types@);
    let t9 = t8 + "\n"@;
    assert(t9 =~= t8 + seq!['\n']) by {
        reveal_strlit("\n");
    }
    lemma_newline(t8, b0, c5, (if key.types@.len() == 0 { 2 } else { 0nat }));
    let b1 = b0.push(c5);
    let c6 = Seq::<Seq<char>>::empty();
    assert(key_on_paper(key, percent) =~= t9);
    assert(b1 =~~= key_table(key, percent));
    lemma_all_shown(t9, b1);
}

/// What a report shows of a path.
pub open spec fn path_table(path: PathStats, percent: Seq<char>) -> Seq<Seq<Seq<char>>> {
    seq![seq![path.path@, percent + "%"@] + type_cells(path.types@)]
}

#[verifier::spinoff_prover]
proof fn lemma_path_shown(path: PathStats, percent: Seq<char>)
    ensures
        shows(path_on_paper(path, percent), path_table(path, percent)),
{
    lemma_nothing_shown();
    let none = Seq::<char>::empty();
    let b0 = Seq::<Seq<Seq<char>>>::empty();
    let c0 = Seq::<Seq<char>>::empty();
    let t1 = none + "  "@;
    assert(t1 =~= none + gap(2)) by {
        reveal_strlit("  ");
    }
    lemma_gap(none, b0, c0, 0, 2);
    let g1 = room(path.path@, 40);
    let t2 = t1 + padded_right(path.path@, 40);
    assert(spaces(40 - path.path@.len()) =~= gap(g1));
    assert(t2 =~= t1 + path.path@ + gap(g1));
    lemma_cell(t1, b0, c0, 2, path.path@);
    let c1 = c0.push(path.path@);
    lemma_gap(t1 + path.path@, b0, c1, 0, g1);
    let t3 = t2 + " "@;
    assert(t3 =~= t2 + gap(1)) by {
        reveal_strlit(" ");
    }
    lemma_gap(t2, b0, c1, g1, 1);
    let g2 = room(percent, 6);
    let t4 = t3 + padded_left(percent, 6);
    assert(spaces(6 - percent.len()) =~= gap(g2));
    assert(t4 =~= t3 + gap(g2) + percent);
    lemma_gap(t3, b0, c1, (g1 + 1) as nat, g2);
    lemma_cell(t3 + gap(g2), b0, c1, ((g1 + 1) as nat + g2) as nat, percent);
    let c2 = c1.push(percent);
    let t5 = t4 + "%  "@;
    assert(t5 =~= t4 + "%"@ + gap(2)) by {
        reveal_strlit("%  ");
        reveal_strlit("%");
    }
    lemma_glue(t4, b0, c2, "%"@);
    let c3 = c2.drop_last().push(c2.last() + "%"@);
    lemma_gap(t4 + "%"@, b0, c3, 0, 2);
    lemma_types_shown(t5, b0, c3, 2, path.types@);
    let c4 = c3 + type_cells(path.types@);
    let t6 = t5 + types_on_paper(path.types@);
    let t7 = t6 + "\n"@;
    assert(t7 =~= t6 + seq!['\n']) by {
        reveal_strlit("\n");
    }
    lemma_newline(t6, b0, c4, (if path.types@.len() == 0 { 2 } else { 0nat }));
    let b1 = b0.push(c4);
    let c5 = Seq::<Seq<char>>::empty();
    assert(path_on_paper(path, percent) =~= t7);
    assert(b1 =~~= path_table(path, percent));
    lemma_all_shown(t7, b1);
}

/// What a report shows of a frequent value.
pub open spec fn value_table(entry: (String, u64), percent: Seq<char>) -> Seq<Seq<Seq<char>>> {
    seq![seq![grouped(entry.1 as nat), percent + "%"@, entry.0@]]
}

#[verifier::spinoff_prover]
proof fn lemma_value_shown(entry: (String, u64), percent: Seq<char>)
    ensures
        shows(value_on_paper(entry, percent), value_table(entry, percent)),
{
    lemma_nothing_shown();
    let none = Seq::<char>::empty();
    let b0 = Seq::<Seq<Seq<char>>>::empty();
    let c0 = Seq::<Seq<char>>::empty();
    let t1 = none + "  "@;
    assert(t1 =~= none + gap(2)) by {
        reveal_strlit("  ");
    }
    lemma_gap(none, b0, c0, 0, 2);
    let g1 = room(grouped(entry.1 as nat), 10);
    let t2 = t1 + padded_left(grouped(entry.1 as nat), 10);
    assert(spaces(10 - grouped(entry.1 as nat).len()) =~= gap(g1));
    assert(t2 =~= t1 + gap(g1) + grouped(entry.1 as nat));
    lemma_gap(t1, b0, c0, 2, g1);
    lemma_cell(t1 + gap(g1), b0, c0, (2 + g1) as nat, grouped(entry.1 as nat));
    let c1 = c0.push(grouped(entry.1 as nat));
    let t3 = t2 + "  "@;
    assert(t3 =~= t2 + gap(2)) by {
        reveal_strlit("  ");
    }
    lemma_gap(t2, b0, c1, 0, 2);
    let g2 = room(percent, 5);
    let t4 = t3 + padded_left(percent, 5);
    assert(spaces(5 - percent.len()) =~= gap(g2));
    assert(t4 =~= t3 + gap(g2) + percent);
    lemma_gap(t3, b0, c1, 2, g2);
    lemma_cell(t3 + gap(g2), b0, c1, (2 + g2) as nat, percent);
    let c2 = c1.push(percent);
    let t5 = t4 + "%  "@;
    assert(t5 =~= t4 + "%"@ + gap(2)) by {
        reveal_strlit("%  ");
        reveal_strlit("%");
    }
    lemma_glue(t4, b0, c2, "%"@);
    let c3 = c2.drop_last().push(c2.last() + "%"@);
    lemma_gap(t4 + "%"@, b0, c3, 0, 2);
    lemma_cell(t5, b0, c3, 2, entry.0@);
    let c4 = c3.push(entry.0@);
    let t6 = t5 + entry.0@;
    let t7 = t6 + "\n"@;
    assert(t7 =~= t6 + seq!['\n']) by {
        reveal_strlit("\n");
    }
    lemma_newline(t6, b0, c4, 0);
    let b1 = b0.push(c4);
    let c5 = Seq::<Seq<char>>::empty();
    assert(value_on_paper(entry, percent) =~= t7);
    assert(b1 =~~= value_table(entry, percent));
    lemma_all_shown(t7, b1);
}

/// What a report shows of a broken line.
pub open spec fn issue_table(issue: Issue) -> Seq<Seq<Seq<char>>> {
    seq![
        seq![
            "line"@,
            decimal(issue.line as nat),
            "col"@,
            decimal(issue.column as nat) + ":"@,
            issue.reason@,
        ],
    ]
}

#[verifier::spinoff_prover]
proof fn lemma_issue_shown(issue: Issue)
    ensures
        shows(issue_on_paper(issue), issue_table(issue)),
{
    lemma_nothing_shown();
    let none = Seq::<char>::empty();
    let b0 = Seq::<Seq<Seq<char>>>::empty();
    let c0 = Seq::<Seq<char>>::empty();
    let t1 = none + "  line "@;
    assert(t1 =~= none + gap(2) + "line"@ + gap(1)) by {
        reveal_strlit("  line ");
        reveal_strlit("line");
    }
    lemma_gap(none, b0, c0, 0, 2);
    lemma_cell(none + gap(2), b0, c0, 2, "line"@);
    let c1 = c0.push("line"@);
    lemma_gap((none + gap(2)) + "line"@, b0, c1, 0, 1);
    lemma_cell(t1, b0, c1, 1, decimal(issue.line as nat));
    let c2 = c1.push(decimal(issue.line as nat));
    let t2 = t1 + decimal(issue.line as nat);
    let t3 = t2 + " col "@;
    assert(t3 =~= t2 + gap(1) + "col"@ + gap(1)) by {
        reveal_strlit(" col ");
        reveal_strlit("col");
    }
    lemma_gap(t2, b0, c2, 0, 1);
    lemma_cell(t2 + gap(1), b0, c2, 1, "col"@);
    let c3 = c2.push("col"@);
    lemma_gap((t2 + gap(1)) + "col"@, b0, c3, 0, 1);
    lemma_cell(t3, b0, c3, 1, decimal(issue.column as nat));
    let c4 = c3.push(decimal(issue.column as nat));
    let t4 = t3 + decimal(issue.column as nat);
    let t5 = t4 + ": "@;
    assert(t5 =~= t4 + ":"@ + gap(1)) by {
        reveal_strlit(": ");
        reveal_strlit(":");
    }
    lemma_glue(t4, b0, c4, ":"@);
    let c5 = c4.drop_last().push(c4.last() + ":"@);
    lemma_gap(t4 + ":"@, b0, c5, 0, 1);
    lemma_cell(t5, b0, c5, 1, issue.reason@);
    let c6 = c5.push(issue.reason@);
    let t6 = t5 + issue.reason@;
    let t7 = t6 + "\n"@;
    assert(t7 =~= t6 + seq!['\n']) by {
        reveal_strlit("\n");
    }
    lemma_newline(t6, b0, c6, 0);
    let b1 = b0.push(c6);
    let c7 = Seq::<Seq<char>>::empty();
    assert(issue_on_paper(issue) =~= t7);
    assert(b1 =~~= issue_table(issue));
    lemma_all_shown(t7, b1);
}

/// What a report shows of the lengths of the lines.
pub open spec fn lengths_table(l: Lengths) -> Seq<Seq<Seq<char>>> {
    seq![
        seq![
            "min"@,
            count_or_dash(l.min),
            "p50"@,
            count_or_dash(l.p50),
            "p90"@,
            count_or_dash(l.p90),
            "p99"@,
            count_or_dash(l.p99),
            "max"@,
            count_or_dash(l.max),
            "mean"@,
            text_or(l.mean, "-"@),
        ],
    ]
}

#[verifier::spinoff_prover]
proof fn lemma_lengths_shown(l: Lengths)
    ensures
        shows(lengths_on_paper(l), lengths_table(l)),
{
    lemma_nothing_shown();
    let none = Seq::<char>::empty();
    let b0 = Seq::<Seq<Seq<char>>>::empty();
    let c0 = Seq::<Seq<char>>::empty();
    let t1 = none + "  min "@;
    assert(t1 =~= none + gap(2) + "min"@ + gap(1)) by {
        reveal_strlit("  min ");
        reveal_strlit("min");
    }
    lemma_gap(none, b0, c0, 0, 2);
    lemma_cell(none + gap(2), b0, c0, 2, "min"@);
    let c1 = c0.push("min"@);
    lemma_gap((none + gap(2)) + "min"@, b0, c1, 0, 1);
    lemma_cell(t1, b0, c1, 1, count_or_dash(l.min));
    let c2 = c1.push(count_or_dash(l.min));
    let t2 = t1 + count_or_dash(l.min);
    let t3 = t2 + "   p50 "@;
    assert(t3 =~= t2 + gap(3) + "p50"@ + gap(1)) by {
        reveal_strlit("   p50 ");
        reveal_strlit("p50");
    }
    lemma_gap(t2, b0, c2, 0, 3);
    lemma_cell(t2 + gap(3), b0, c2, 3, "p50"@);
    let c3 = c2.push("p50"@);
    lemma_gap((t2 + gap(3)) + "p50"@, b0, c3, 0, 1);
    lemma_cell(t3, b0, c3, 1, count_or_dash(l.p50));
    let c4 = c3.push(count_or_dash(l.p50));
    let t4 = t3 + count_or_dash(l.p50);
    let t5 = t4 + "   p90 "@;
    assert(t5 =~= t4 + gap(3) + "p90"@ + gap(1)) by {
        reveal_strlit("   p90 ");
        reveal_strlit("p90");
    }
    lemma_gap(t4, b0, c4, 0, 3);
    lemma_cell(t4 + gap(3), b0, c4, 3, "p90"@);
    let c5 = c4.push("p90"@);
    lemma_gap((t4 + gap(3)) + "p90"@, b0, c5, 0, 1);
    lemma_cell(t5, b0, c5, 1, count_or_dash(l.p90));
    let c6 = c5.push(count_or_dash(l.p90));
    let t6 = t5 + count_or_dash(l.p90);
    let t7 = t6 + "   p99 "@;
    assert(t7 =~= t6 + gap(3) + "p99"@ + gap(1)) by {
        reveal_strlit("   p99 ");
        reveal_strlit("p99");
    }
    lemma_gap(t6, b0, c6, 0, 3);
    lemma_cell(t6 + gap(3), b0, c6, 3, "p99"@);
    let c7 = c6.push("p99"@);
    lemma_gap((t6 + gap(3)) + "p99"@, b0, c7, 0, 1);
    lemma_cell(t7, b0, c7, 1, count_or_dash(l.p99));
    let c8 = c7.push(count_or_dash(l.p99));
    let t8 = t7 + count_or_dash(l.p99);
    let t9 = t8 + "   max "@;
    assert(t9 =~= t8 + gap(3) + "max"@ + gap(1)) by {
        reveal_strlit("   max ");
        reveal_strlit("max");
    }
    lemma_gap(t8, b0, c8, 0, 3);
    lemma_cell(t8 + gap(3), b0, c8, 3, "max"@);
    let c9 = c8.push("max"@);
    lemma_gap((t8 + gap(3)) + "max"@, b0, c9, 0, 1);
    lemma_cell(t9, b0, c9, 1, count_or_dash(l.max));
    let c10 = c9.push(count_or_dash(l.max));
    let t10 = t9 + count_or_dash(l.max);
    let t11 = t10 + "   mean "@;
    assert(t11 =~= t10 + gap(3) + "mean"@ + gap(1)) by {
        reveal_strlit("   mean ");
        reveal_strlit("mean");
    }
    lemma_gap(t10, b0, c10, 0, 3);
    lemma_cell(t10 + gap(3), b0, c10, 3, "mean"@);
    let c11 = c10.push("mean"@);
    lemma_gap((t10 + gap(3)) + "mean"@, b0, c11, 0, 1);
    lemma_cell(t11, b0, c11, 1, text_or(l.mean, "-"@));
    let c12 = c11.push(text_or(l.mean, "-"@));
    let t12 = t11 + text_or(l.mean, "-"@);
    let t13 = t12 + "\n"@;
    assert(t13 =~= t12 + seq!['\n']) by {
        reveal_strlit("\n");
    }
    lemma_newline(t12, b0, c12, 0);
    let b1 = b0.push(c12);
    let c13 = Seq::<Seq<char>>::empty();
    assert(lengths_on_paper(l) =~= t13);
    assert(b1 =~~= lengths_table(l));
    lemma_all_shown(t13, b1);
}

/// What a report shows of the lines of an input.
pub open spec fn counts_table(stats: Stats, file: Seq<char>, kib: Seq<char>) -> Seq<Seq<Seq<char>>> {
    seq![
        seq!["file"@, file],
        seq![
            "lines"@,
            grouped(stats.lines as nat),
            "blank"@,
            grouped(stats.blank as nat),
            "invalid"@,
            grouped((stats.lines - stats.blank - stats.valid) as nat),
            "valid"@,
            grouped(stats.valid as nat),
        ],
        seq!["bytes"@, grouped(stats.bytes as nat), "("@ + kib, "KiB)"@],
        seq!["top level"@] + type_cells(stats.top_level_types@),
        Seq::empty(),
        seq!["line length in bytes"@],
    ]
}

#[verifier::spinoff_prover]
proof fn lemma_counts_shown(stats: Stats, file: Seq<char>, kib: Seq<char>)
    ensures
        shows(line_counts_on_paper(stats, file, kib), counts_table(stats, file, kib)),
{
    lemma_nothing_shown();
    let none = Seq::<char>::empty();
    let b0 = Seq::<Seq<Seq<char>>>::empty();
    let c0 = Seq::<Seq<char>>::empty();
    let t1 = none + "file    "@;
    assert(t1 =~= none + "file"@ + gap(4)) by {
        reveal_strlit("file    ");
        reveal_strlit("file");
    }
    lemma_cell(none, b0, c0, 0, "file"@);
    let c1 = c0.push("file"@);
    lemma_gap(none + "file"@, b0, c1, 0, 4);
    lemma_cell(t1, b0, c1, 4, file);
    let c2 = c1.push(file);
    let t2 = t1 + file;
    let t3 = t2 + "\nlines  "@;
    assert(t3 =~= t2 + seq!['\n'] + "lines"@ + gap(2)) by {
        reveal_strlit("\nlines  ");
        reveal_strlit("lines");
    }
    lemma_newline(t2, b0, c2, 0);
    let b1 = b0.push(c2);
    let c3 = Seq::<Seq<char>>::empty();
    lemma_cell(t2 + seq!['\n'], b1, c3, 0, "lines"@);
    let c4 = c3.push("lines"@);
    lemma_gap((t2 + seq!['\n']) + "lines"@, b1, c4, 0, 2);
    lemma_cell(t3, b1, c4, 2, grouped(stats.lines as nat));
    let c5 = c4.push(grouped(stats.lines as nat));
    let t4 = t3 + grouped(stats.lines as nat);
    let t5 = t4 + "   blank "@;
    assert(t5 =~= t4 + gap(3) + "blank"@ + gap(1)) by {
        reveal_strlit("   blank ");
        reveal_strlit("blank");
    }
    lemma_gap(t4, b1, c5, 0, 3);
    lemma_cell(t4 + gap(3), b1, c5, 3, "blank"@);
    let c6 = c5.push("blank"@);
    lemma_gap((t4 + gap(3)) + "blank"@, b1, c6, 0, 1);
    lemma_cell(t5, b1, c6, 1, grouped(stats.blank as nat));
    let c7 = c6.push(grouped(stats.blank as nat));
    let t6 = t5 + grouped(stats.blank as nat);
    let t7 = t6 + "   invalid "@;
    assert(t7 =~= t6 + gap(3) + "invalid"@ + gap(1)) by {
        reveal_strlit("   invalid ");
        reveal_strlit("invalid");
    }
    lemma_gap(t6, b1, c7, 0, 3);
    lemma_cell(t6 + gap(3), b1, c7, 3, "invalid"@);
    let c8 = c7.push("invalid"@);
    lemma_gap((t6 + gap(3)) + "invalid"@, b1, c8, 0, 1);
    lemma_cell(t7, b1, c8, 1, grouped((stats.lines - stats.blank - stats.valid) as nat));
    let c9 = c8.push(grouped((stats.lines - stats.blank - stats.valid) as nat));
    let t8 = t7 + grouped((stats.lines - stats.blank - stats.valid) as nat);
    let t9 = t8 + "   valid "@;
    assert(t9 =~= t8 + gap(3) + "valid"@ + gap(1)) by {
        reveal_strlit("   valid ");
        reveal_strlit("valid");
    }
    lemma_gap(t8, b1, c9, 0, 3);
    lemma_cell(t8 + gap(3), b1, c9, 3, "valid"@);
    let c10 = c9.push("valid"@);
    lemma_gap((t8 + gap(3)) + "valid"@, b1, c10, 0, 1);
    lemma_cell(t9, b1, c10, 1, grouped(stats.valid as nat));
    let c11 = c10.push(grouped(stats.valid as nat));
    let t10 = t9 + grouped(stats.valid as nat);
    let t11 = t10 + "\nbytes  "@;
    assert(t11 =~= t10 + seq!['\n'] + "bytes"@ + gap(2)) by {
        reveal_strlit("\nbytes  ");
        reveal_strlit("bytes");
    }
    lemma_newline(t10, b1, c11, 0);
    let b2 = b1.push(c11);
    let c12 = Seq::<Seq<char>>::empty();
    lemma_cell(t10 + seq!['\n'], b2, c12, 0, "bytes"@);
    let c13 = c12.push("bytes"@);
    lemma_gap((t10 + seq!['\n']) + "bytes"@, b2, c13, 0, 2);
    lemma_cell(t11, b2, c13, 2, grouped(stats.bytes as nat));
    let c14 = c13.push(grouped(stats.bytes as nat));
    let t12 = t11 + grouped(stats.bytes as nat);
    let t13 = t12 + "   ("@;
    assert(t13 =~= t12 + gap(3) + "("@) by {
        reveal_strlit("   (");
        reveal_strlit("(");
    }
    lemma_gap(t12, b2, c14, 0, 3);
    lemma_cell(t12 + gap(3), b2, c14, 3, "("@);
    let c15 = c14.push("("@);
    lemma_glue(t13, b2, c15, kib);
    let c16 = c15.drop_last().push(c15.last() + kib);
    let t14 = t13 + kib;
    let t15 = t14 + " KiB)\ntop level  "@;
    assert(t15 =~= t14 + gap(1) + "KiB)"@ + seq!['\n'] + "top level"@ + gap(2)) by {
        reveal_strlit(" KiB)\ntop level  ");
        reveal_strlit("KiB)");
        reveal_strlit("top level");
    }
    lemma_gap(t14, b2, c16, 0, 1);
    lemma_cell(t14 + gap(1), b2, c16, 1, "KiB)"@);
    let c17 = c16.push("KiB)"@);
    lemma_newline((t14 + gap(1)) + "KiB)"@, b2, c17, 0);
    let b3 = b2.push(c17);
    let c18 = Seq::<Seq<char>>::empty();
    lemma_cell(((t14 + gap(1)) + "KiB)"@) + seq!['\n'], b3, c18, 0, "top level"@);
    let c19 = c18.push("top level"@);
    lemma_gap((((t14 + gap(1)) + "KiB)"@) + seq!['\n']) + "top level"@, b3, c19, 0, 2);
    lemma_types_shown(t15, b3, c19, 2, stats.top_level_types@);
    let c20 = c19 + type_cells(stats.top_level_types@);
    let t16 = t15 + types_on_paper(stats.top_level_types@);
    let t17 = t16 + "\n\nline length in bytes\n"@;
    assert(t17 =~= t16 + seq!['\n'] + seq!['\n'] + "line length in bytes"@ + seq!['\n']) by {
        reveal_strlit("\n\nline length in bytes\n");
        reveal_strlit("line length in bytes");
    }
    lemma_newline(t16, b3, c20, (if stats.top_level_types@.len() == 0 { 2 } else { 0nat }));
    let b4 = b3.push(c20);
    let c21 = Seq::<Seq<char>>::empty();
    lemma_newline(t16 + seq!['\n'], b4, c21, 0);
    let b5 = b4.push(c21);
    let c22 = Seq::<Seq<char>>::empty();
    lemma_cell((t16 + seq!['\n']) + seq!['\n'], b5, c22, 0, "line length in bytes"@);
    let c23 = c22.push("line length in bytes"@);
    lemma_newline(((t16 + seq!['\n']) + seq!['\n']) + "line length in bytes"@, b5, c23, 0);
    let b6 = b5.push(c23);
    let c24 = Seq::<Seq<char>>::empty();
    assert(line_counts_on_paper(stats, file, kib) =~= t17);
    assert(b6 =~~= counts_table(stats, file, kib));
    lemma_all_shown(t17, b6);
}

/// What a report shows of a field.
pub open spec fn field_table(field: FieldStats, detail: FieldDetail, valid: u64) -> Seq<Seq<Seq<char>>> {
    seq![
        Seq::empty(),
        seq!["field"@, field.path.text()],
        seq![
            "present in"@,
            grouped(field.present as nat),
            "of"@,
            grouped(valid as nat),
            "records ("@ + detail.percent@ + "%),"@,
            grouped(field.values as nat),
            "values, types"@,
        ] + type_cells(field.types@),
        seq![decimal(field.value_counts.names().len()), "distinct values"@] + if field.values_capped {
            seq!["(capped)"@]
        } else {
            Seq::empty()
        },
    ] + Seq::new(
        detail.top@.len(),
        |i: int| value_table(detail.top@[i], detail.value_percents@[i]@),
    ).flatten_alt()
}

#[verifier::spinoff_prover]
proof fn lemma_field_shown(field: FieldStats, detail: FieldDetail, valid: u64)
    ensures
        shows(field_on_paper(field, detail, valid), field_table(field, detail, valid)),
{
    lemma_nothing_shown();
    let none = Seq::<char>::empty();
    let b0 = Seq::<Seq<Seq<char>>>::empty();
    let c0 = Seq::<Seq<char>>::empty();
    let t1 = none + "\nfield "@;
    assert(t1 =~= none + seq!['\n'] + "field"@ + gap(1)) by {
        reveal_strlit("\nfield ");
        reveal_strlit("field");
    }
    lemma_newline(none, b0, c0, 0);
    let b1 = b0.push(c0);
    let c1 = Seq::<Seq<char>>::empty();
    lemma_cell(none + seq!['\n'], b1, c1, 0, "field"@);
    let c2 = c1.push("field"@);
    lemma_gap((none + seq!['\n']) + "field"@, b1, c2, 0, 1);
    lemma_cell(t1, b1, c2, 1, field.path.text());
    let c3 = c2.push(field.path.text());
    let t2 = t1 + field.path.text();
    let t3 = t2 + "\n  present in "@;
    assert(t3 =~= t2 + seq!['\n'] + gap(2) + "present in"@ + gap(1)) by {
        reveal_strlit("\n  present in ");
        reveal_strlit("present in");
    }
    lemma_newline(t2, b1, c3, 0);
    let b2 = b1.push(c3);
    let c4 = Seq::<Seq<char>>::empty();
    lemma_gap(t2 + seq!['\n'], b2, c4, 0, 2);
    lemma_cell((t2 + seq!['\n']) + gap(2), b2, c4, 2, "present in"@);
    let c5 = c4.push("present in"@);
    lemma_gap(((t2 + seq!['\n']) + gap(2)) + "present in"@, b2, c5, 0, 1);
    lemma_cell(t3, b2, c5, 1, grouped(field.present as nat));
    let c6 = c5.push(grouped(field.present as nat));
    let t4 = t3 + grouped(field.present as nat);
    let t5 = t4 + " of "@;
    assert(t5 =~= t4 + gap(1) + "of"@ + gap(1)) by {
        reveal_strlit(" of ");
        reveal_strlit("of");
    }
    lemma_gap(t4, b2, c6, 0, 1);
    lemma_cell(t4 + gap(1), b2, c6, 1, "of"@);
    let c7 = c6.push("of"@);
    lemma_gap((t4 + gap(1)) + "of"@, b2, c7, 0, 1);
    lemma_cell(t5, b2, c7, 1, grouped(valid as nat));
    let c8 = c7.push(grouped(valid as nat));
    let t6 = t5 + grouped(valid as nat);
    let t7 = t6 + " records ("@;
    assert(t7 =~= t6 + gap(1) + "records ("@) by {
        reveal_strlit(" records (");
        reveal_strlit("records (");
    }
    lemma_gap(t6, b2, c8, 0, 1);
    lemma_cell(t6 + gap(1), b2, c8, 1, "records ("@);
    let c9 = c8.push("records ("@);
    lemma_glue(t7, b2, c9, detail.percent@);
    let c10 = c9.drop_last().push(c9.last() + detail.percent@);
    let t8 = t7 + detail.percent@;
    let t9 = t8 + "%), "@;
    assert(t9 =~= t8 + "%),"@ + gap(1)) by {
        reveal_strlit("%), ");
        reveal_strlit("%),");
    }
    lemma_glue(t8, b2, c10, "%),"@);
    let c11 = c10.drop_last().push(c10.last() + "%),"@);
    lemma_gap(t8 + "%),"@, b2, c11, 0, 1);
    lemma_cell(t9, b2, c11, 1, grouped(field.values as nat));
    let c12 = c11.push(grouped(field.values as nat));
    let t10 = t9 + grouped(field.values as nat);
    let t11 = t10 + " values, types "@;
    assert(t11 =~= t10 + gap(1) + "values, types"@ + gap(1)) by {
        reveal_strlit(" values, types ");
        reveal_strlit("values, types");
    }
    lemma_gap(t10, b2, c12, 0, 1);
    lemma_cell(t10 + gap(1), b2, c12, 1, "values, types"@);
    let c13 = c12.push("values, types"@);
    lemma_gap((t10 + gap(1)) + "values, types"@, b2, c13, 0, 1);
    lemma_types_shown(t11, b2, c13, 1, field.types@);
    let c14 = c13 + type_cells(field.types@);
    let t12 = t11 + types_on_paper(field.types@);
    let t13 = t12 + "\n  "@;
    assert(t13 =~= t12 + seq!['\n'] + gap(2)) by {
        reveal_strlit("\n  ");
    }
    lemma_newline(t12, b2, c14, (if field.types@.len() == 0 { 1 } else { 0nat }));
    let b3 = b2.push(c14);
    let c15 = Seq::<Seq<char>>::empty();
    lemma_gap(t12 + seq!['\n'], b3, c15, 0, 2);
    lemma_cell(t13, b3, c15, 2, decimal(field.value_counts.names().len()));
    let c16 = c15.push(decimal(field.value_counts.names().len()));
    let t14 = t13 + decimal(field.value_counts.names().len());
    let t15 = t14 + " distinct values"@;
    assert(t15 =~= t14 + gap(1) + "distinct values"@) by {
        reveal_strlit(" distinct values");
        reveal_strlit("distinct values");
    }
    lemma_gap(t14, b3, c16, 0, 1);
    lemma_cell(t14 + gap(1), b3, c16, 1, "distinct values"@);
    let c17 = c16.push("distinct values"@);
    lemma_may_be_capped(t15, b3, c17, field.values_capped);
    let t16 = t15 + (if field.values_capped { " (capped)"@ } else { ""@ });
    let c18 = c17 + if field.values_capped { seq!["(capped)"@] } else { Seq::empty() };
    let t17 = t16 + "\n"@;
    assert(t17 =~= t16 + seq!['\n']) by {
        reveal_strlit("\n");
    }
    lemma_newline(t16, b3, c18, 0);
    let b4 = b3.push(c18);
    let c19 = Seq::<Seq<char>>::empty();
    let parts = Seq::new(
        detail.top@.len(),
        |i: int| value_on_paper(detail.top@[i], detail.value_percents@[i]@),
    );
    let tables = Seq::new(
        detail.top@.len(),
        |i: int| value_table(detail.top@[i], detail.value_percents@[i]@),
    );
    assert forall|i: int| 0 <= i < parts.len() implies shows(#[trigger] parts[i], tables[i]) by {
        lemma_value_shown(detail.top@[i], detail.value_percents@[i]@);
    }
    lemma_tables(parts, tables);
    lemma_rows(t17, b4, in_a_row(parts), tables.flatten_alt());
    let b5 = b4 + tables.flatten_alt();
    let t18 = t17 + in_a_row(parts);
    assert(field_on_paper(field, detail, valid) =~= t18);
    assert(b5 =~~= field_table(field, detail, valid));
    lemma_all_shown(t18, b5);
}

/// What a report shows of the broken lines: nothing if there are none.
pub open spec fn issues_table(stats: Stats) -> Seq<Seq<Seq<char>>> {
    if stats.issues@.len() + stats.issues_truncated == 0 {
        Seq::empty()
    } else {
        seq![
            Seq::empty(),
            seq![
                "invalid lines ("@ + decimal(stats.issues@.len() + stats.issues_truncated as nat),
                "total, showing"@,
                decimal(stats.issues@.len()) + ")"@,
            ],
        ] + stats.issues@.map_values(|issue: Issue| issue_table(issue)).flatten_alt()
    }
}

#[verifier::spinoff_prover]
proof fn lemma_some_issues_shown(stats: Stats)
    requires
        stats.issues@.len() + stats.issues_truncated > 0,
    ensures
        shows(issues_on_paper(stats), issues_table(stats)),
{
    lemma_nothing_shown();
    let none = Seq::<char>::empty();
    let b0 = Seq::<Seq<Seq<char>>>::empty();
    let c0 = Seq::<Seq<char>>::empty();
    let t1 = none + "\ninvalid lines ("@;
    assert(t1 =~= none + seq!['\n'] + "invalid lines ("@) by {
        reveal_strlit("\ninvalid lines (");
        reveal_strlit("invalid lines (");
    }
    lemma_newline(none, b0, c0, 0);
    let b1 = b0.push(c0);
    let c1 = Seq::<Seq<char>>::empty();
    lemma_cell(none + seq!['\n'], b1, c1, 0, "invalid lines ("@);
    let c2 = c1.push("invalid lines ("@);
    lemma_glue(t1, b1, c2, decimal(stats.issues@.len() + stats.issues_truncated as nat));
    let c3 = c2.drop_last().push(c2.last() + decimal(stats.issues@.len() + stats.issues_truncated as nat));
    let t2 = t1 + decimal(stats.issues@.len() + stats.issues_truncated as nat);
    let t3 = t2 + " total, showing "@;
    assert(t3 =~= t2 + gap(1) + "total, showing"@ + gap(1)) by {
        reveal_strlit(" total, showing ");
        reveal_strlit("total, showing");
    }
    lemma_gap(t2, b1, c3, 0, 1);
    lemma_cell(t2 + gap(1), b1, c3, 1, "total, showing"@);
    let c4 = c3.push("total, showing"@);
    lemma_gap((t2 + gap(1)) + "total, showing"@, b1, c4, 0, 1);
    lemma_cell(t3, b1, c4, 1, decimal(stats.issues@.len()));
    let c5 = c4.push(decimal(stats.issues@.len()));
    let t4 = t3 + decimal(stats.issues@.len());
    let t5 = t4 + ")\n"@;
    assert(t5 =~= t4 + ")"@ + seq!['\n']) by {
        reveal_strlit(")\n");
        reveal_strlit(")");
    }
    lemma_glue(t4, b1, c5, ")"@);
    let c6 = c5.drop_last().push(c5.last() + ")"@);
    lemma_newline(t4 + ")"@, b1, c6, 0);
    let b2 = b1.push(c6);
    let c7 = Seq::<Seq<char>>::empty();
    let parts = stats.issues@.map_values(|i: Issue| issue_on_paper(i));
    let tables = stats.issues@.map_values(|issue: Issue| issue_table(issue));
    assert forall|i: int| 0 <= i < parts.len() implies shows(#[trigger] parts[i], tables[i]) by {
        lemma_issue_shown(stats.issues@[i]);
    }
    lemma_tables(parts, tables);
    lemma_rows(t5, b2, in_a_row(parts), tables.flatten_alt());
    let b3 = b2 + tables.flatten_alt();
    let t6 = t5 + in_a_row(parts);
    assert(issues_on_paper(stats) =~= t6);
    assert(b3 =~~= issues_table(stats));
    lemma_all_shown(t6, b3);
}

#[verifier::spinoff_prover]
proof fn lemma_issues_shown(stats: Stats)
    ensures
        shows(issues_on_paper(stats), issues_table(stats)),
{
    lemma_nothing_shown();
    lemma_all_shown(Seq::empty(), Seq::empty());
    if stats.issues@.len() + stats.issues_truncated > 0 {
        lemma_some_issues_shown(stats);
    }
}

/// What a report shows of the statistics: the lines of the input and their lengths, a row
/// for every key, the fields with their frequent values, and the broken lines.
pub open spec fn stats_table(
    stats: Stats,
    keys: Seq<&KeyStats>,
    percents: Seq<String>,
    details: Seq<FieldDetail>,
    lengths: Lengths,
    file: Seq<char>,
    kib: Seq<char>,
) -> Seq<Seq<Seq<char>>> {
    counts_table(stats, file, kib) + lengths_table(lengths) + seq![
        Seq::empty(),
        seq!["top level keys over"@, grouped(stats.valid as nat), "objects"@],
    ] + Seq::new(keys.len(), |i: int| key_table(*keys[i], percents[i]@)).flatten_alt() + Seq::new(
        stats.fields@.len(),
        |i: int| field_table(stats.fields@[i], details[i], stats.valid),
    ).flatten_alt() + issues_table(stats)
}

/// The report of the statistics on paper shows their table, row by row and cell by cell:
/// nothing is left out, and nothing else is there but spaces.
#[verifier::spinoff_prover]
pub proof fn law_the_statistics_on_paper_show_their_table(
    stats: Stats,
    keys: Seq<&KeyStats>,
    percents: Seq<String>,
    details: Seq<FieldDetail>,
    lengths: Lengths,
    file: Seq<char>,
    kib: Seq<char>,
)
    ensures
        shows(
            stats_on_paper(stats, keys, percents, details, lengths, file, kib),
            stats_table(stats, keys, percents, details, lengths, file, kib),
        ),
{
    lemma_nothing_shown();
    let none = Seq::<char>::empty();
    let b0 = Seq::<Seq<Seq<char>>>::empty();
    let c0 = Seq::<Seq<char>>::empty();
    lemma_counts_shown(stats, file, kib);
    lemma_lengths_shown(lengths);
    lemma_rows(none, b0, line_counts_on_paper(stats, file, kib), counts_table(stats, file, kib));
    let b1 = b0 + counts_table(stats, file, kib);
    let t1 = none + line_counts_on_paper(stats, file, kib);
    lemma_rows(t1, b1, lengths_on_paper(lengths), lengths_table(lengths));
    let b2 = b1 + lengths_table(lengths);
    let t2 = t1 + lengths_on_paper(lengths);
    let t3 = t2 + "\ntop level keys over "@;
    assert(t3 =~= t2 + seq!['\n'] + "top level keys over"@ + gap(1)) by {
        reveal_strlit("\ntop level keys over ");
        reveal_strlit("top level keys over");
    }
    lemma_newline(t2, b2, c0, 0);
    let b3 = b2.push(c0);
    let c1 = Seq::<Seq<char>>::empty();
    lemma_cell(t2 + seq!['\n'], b3, c1, 0, "top level keys over"@);
    let c2 = c1.push("top level keys over"@);
    lemma_gap((t2 + seq!['\n']) + "top level keys over"@, b3, c2, 0, 1);
    lemma_cell(t3, b3, c2, 1, grouped(stats.valid as nat));
    let c3 = c2.push(grouped(stats.valid as nat));
    let t4 = t3 + grouped(stats.valid as nat);
    let t5 = t4 + " objects\n"@;
    assert(t5 =~= t4 + gap(1) + "objects"@ + seq!['\n']) by {
        reveal_strlit(" objects\n");
        reveal_strlit("objects");
    }
    lemma_gap(t4, b3, c3, 0, 1);
    lemma_cell(t4 + gap(1), b3, c3, 1, "objects"@);
    let c4 = c3.push("objects"@);
    lemma_newline((t4 + gap(1)) + "objects"@, b3, c4, 0);
    let b4 = b3.push(c4);
    let c5 = Seq::<Seq<char>>::empty();
    let key_parts = Seq::new(keys.len(), |i: int| key_on_paper(*keys[i], percents[i]@));
    let key_tables = Seq::new(keys.len(), |i: int| key_table(*keys[i], percents[i]@));
    assert forall|i: int| 0 <= i < key_parts.len() implies shows(
        #[trigger] key_parts[i],
        key_tables[i],
    ) by {
        lemma_key_shown(*keys[i], percents[i]@);
    }
    lemma_tables(key_parts, key_tables);
    lemma_rows(t5, b4, in_a_row(key_parts), key_tables.flatten_alt());
    let b5 = b4 + key_tables.flatten_alt();
    let t6 = t5 + in_a_row(key_parts);
    let field_parts = Seq::new(
        stats.fields@.len(),
        |i: int| field_on_paper(stats.fields@[i], details[i], stats.valid),
    );
    let field_tables = Seq::new(
        stats.fields@.len(),
        |i: int| field_table(stats.fields@[i], details[i], stats.valid),
    );
    assert forall|i: int| 0 <= i < field_parts.len() implies shows(
        #[trigger] field_parts[i],
        field_tables[i],
    ) by {
        lemma_field_shown(stats.fields@[i], details[i], stats.valid);
    }
    lemma_tables(field_parts, field_tables);
    lemma_rows(t6, b5, in_a_row(field_parts), field_tables.flatten_alt());
    let b6 = b5 + field_tables.flatten_alt();
    let t7 = t6 + in_a_row(field_parts);
    lemma_issues_shown(stats);
    lemma_rows(t7, b6, issues_on_paper(stats), issues_table(stats));
    let b7 = b6 + issues_table(stats);
    let t8 = t7 + issues_on_paper(stats);
    assert(stats_on_paper(stats, keys, percents, details, lengths, file, kib) =~= t8);
    assert(b7 =~~= stats_table(stats, keys, percents, details, lengths, file, kib));
    lemma_all_shown(t8, b7);
}

/// What a report shows of lines that were passed over: nothing if there are none.
pub open spec fn skipped_table(unparseable: u64) -> Seq<Seq<Seq<char>>> {
    if unparseable == 0 {
        Seq::empty()
    } else {
        seq![
            seq![
                decimal(unparseable as nat),
                "unparseable"@,
                if unparseable == 1 {
                    "line"@
                } else {
                    "lines"@
                },
                "skipped"@,
            ],
        ]
    }
}

#[verifier::spinoff_prover]
proof fn lemma_some_skipped_shown(unparseable: u64)
    requires
        unparseable > 0,
    ensures
        shows(skipped_on_paper(unparseable), skipped_table(unparseable)),
{
    lemma_nothing_shown();
    let none = Seq::<char>::empty();
    let b0 = Seq::<Seq<Seq<char>>>::empty();
    let c0 = Seq::<Seq<char>>::empty();
    lemma_cell(none, b0, c0, 0, decimal(unparseable as nat));
    let c1 = c0.push(decimal(unparseable as nat));
    let t1 = none + decimal(unparseable as nat);
    let t2 = t1 + " unparseable "@;
    assert(t2 =~= t1 + gap(1) + "unparseable"@ + gap(1)) by {
        reveal_strlit(" unparseable ");
        reveal_strlit("unparseable");
    }
    lemma_gap(t1, b0, c1, 0, 1);
    lemma_cell(t1 + gap(1), b0, c1, 1, "unparseable"@);
    let c2 = c1.push("unparseable"@);
    lemma_gap((t1 + gap(1)) + "unparseable"@, b0, c2, 0, 1);
    lemma_cell(t2, b0, c2, 1, (if unparseable == 1 { "line"@ } else { "lines"@ }));
    let c3 = c2.push((if unparseable == 1 { "line"@ } else { "lines"@ }));
    let t3 = t2 + (if unparseable == 1 { "line"@ } else { "lines"@ });
    let t4 = t3 + " skipped\n"@;
    assert(t4 =~= t3 + gap(1) + "skipped"@ + seq!['\n']) by {
        reveal_strlit(" skipped\n");
        reveal_strlit("skipped");
    }
    lemma_gap(t3, b0, c3, 0, 1);
    lemma_cell(t3 + gap(1), b0, c3, 1, "skipped"@);
    let c4 = c3.push("skipped"@);
    lemma_newline((t3 + gap(1)) + "skipped"@, b0, c4, 0);
    let b1 = b0.push(c4);
    let c5 = Seq::<Seq<char>>::empty();
    assert(skipped_on_paper(unparseable) =~= t4);
    assert(b1 =~~= skipped_table(unparseable));
    lemma_all_shown(t4, b1);
}

#[verifier::spinoff_prover]
proof fn lemma_skipped_shown(unparseable: u64)
    ensures
        shows(skipped_on_paper(unparseable), skipped_table(unparseable)),
{
    lemma_nothing_shown();
    lemma_all_shown(Seq::empty(), Seq::empty());
    if unparseable > 0 {
        lemma_some_skipped_shown(unparseable);
    }
}

/// What a report shows of a full table of paths: nothing if there was room.
pub open spec fn capped_table(capped: bool) -> Seq<Seq<Seq<char>>> {
    if capped {
        seq![seq!["path table capped at"@, decimal(2000)]]
    } else {
        Seq::empty()
    }
}

#[verifier::spinoff_prover]
proof fn lemma_a_full_table_shown(capped: bool)
    requires
        capped,
    ensures
        shows(capped_on_paper(capped), capped_table(capped)),
{
    lemma_nothing_shown();
    let none = Seq::<char>::empty();
    let b0 = Seq::<Seq<Seq<char>>>::empty();
    let c0 = Seq::<Seq<char>>::empty();
    let t1 = none + "path table capped at "@;
    assert(t1 =~= none + "path table capped at"@ + gap(1)) by {
        reveal_strlit("path table capped at ");
        reveal_strlit("path table capped at");
    }
    lemma_cell(none, b0, c0, 0, "path table capped at"@);
    let c1 = c0.push("path table capped at"@);
    lemma_gap(none + "path table capped at"@, b0, c1, 0, 1);
    lemma_cell(t1, b0, c1, 1, decimal(2000));
    let c2 = c1.push(decimal(2000));
    let t2 = t1 + decimal(2000);
    let t3 = t2 + "\n"@;
    assert(t3 =~= t2 + seq!['\n']) by {
        reveal_strlit("\n");
    }
    lemma_newline(t2, b0, c2, 0);
    let b1 = b0.push(c2);
    let c3 = Seq::<Seq<char>>::empty();
    assert(capped_on_paper(capped) =~= t3);
    assert(b1 =~~= capped_table(capped));
    lemma_all_shown(t3, b1);
}

#[verifier::spinoff_prover]
proof fn lemma_capped_shown(capped: bool)
    ensures
        shows(capped_on_paper(capped), capped_table(capped)),
{
    lemma_nothing_shown();
    lemma_all_shown(Seq::empty(), Seq::empty());
    if capped {
        lemma_a_full_table_shown(capped);
    }
}

/// What a report shows of a schema: the records and the depth, a row for every path, and
/// what was passed over or turned away.
pub open spec fn schema_table(
    schema: Schema,
    paths: Seq<&PathStats>,
    percents: Seq<String>,
    file: Seq<char>,
) -> Seq<Seq<Seq<char>>> {
    seq![
        seq!["file"@, file],
        seq![
            grouped(schema.records as nat),
            "records, depth"@,
            decimal(schema.depth as nat),
        ],
        Seq::empty(),
    ] + Seq::new(paths.len(), |i: int| path_table(*paths[i], percents[i]@)).flatten_alt() + seq![
        Seq::empty(),
    ] + skipped_table(schema.unparseable) + capped_table(schema.paths_capped)
}

/// The report of a schema on paper shows its table, row by row and cell by cell: nothing
/// is left out, and nothing else is there but spaces.
#[verifier::spinoff_prover]
pub proof fn law_the_schema_on_paper_shows_its_table(
    schema: Schema,
    paths: Seq<&PathStats>,
    percents: Seq<String>,
    file: Seq<char>,
)
    ensures
        shows(
            schema_on_paper(schema, paths, percents, file),
            schema_table(schema, paths, percents, file),
        ),
{
    lemma_nothing_shown();
    let none = Seq::<char>::empty();
    let b0 = Seq::<Seq<Seq<char>>>::empty();
    let c0 = Seq::<Seq<char>>::empty();
    let t1 = none + "file    "@;
    assert(t1 =~= none + "file"@ + gap(4)) by {
        reveal_strlit("file    ");
        reveal_strlit("file");
    }
    lemma_cell(none, b0, c0, 0, "file"@);
    let c1 = c0.push("file"@);
    lemma_gap(none + "file"@, b0, c1, 0, 4);
    lemma_cell(t1, b0, c1, 4, file);
    let c2 = c1.push(file);
    let t2 = t1 + file;
    let t3 = t2 + "\n"@;
    assert(t3 =~= t2 + seq!['\n']) by {
        reveal_strlit("\n");
    }
    lemma_newline(t2, b0, c2, 0);
    let b1 = b0.push(c2);
    let c3 = Seq::<Seq<char>>::empty();
    lemma_cell(t3, b1, c3, 0, grouped(schema.records as nat));
    let c4 = c3.push(grouped(schema.records as nat));
    let t4 = t3 + grouped(schema.records as nat);
    let t5 = t4 + " records, depth "@;
    assert(t5 =~= t4 + gap(1) + "records, depth"@ + gap(1)) by {
        reveal_strlit(" records, depth ");
        reveal_strlit("records, depth");
    }
    lemma_gap(t4, b1, c4, 0, 1);
    lemma_cell(t4 + gap(1), b1, c4, 1, "records, depth"@);
    let c5 = c4.push("records, depth"@);
    lemma_gap((t4 + gap(1)) + "records, depth"@, b1, c5, 0, 1);
    lemma_cell(t5, b1, c5, 1, decimal(schema.depth as nat));
    let c6 = c5.push(decimal(schema.depth as nat));
    let t6 = t5 + decimal(schema.depth as nat);
    let t7 = t6 + "\n\n"@;
    assert(t7 =~= t6 + seq!['\n'] + seq!['\n']) by {
        reveal_strlit("\n\n");
    }
    lemma_newline(t6, b1, c6, 0);
    let b2 = b1.push(c6);
    let c7 = Seq::<Seq<char>>::empty();
    lemma_newline(t6 + seq!['\n'], b2, c7, 0);
    let b3 = b2.push(c7);
    let c8 = Seq::<Seq<char>>::empty();
    let parts = Seq::new(paths.len(), |i: int| path_on_paper(*paths[i], percents[i]@));
    let tables = Seq::new(paths.len(), |i: int| path_table(*paths[i], percents[i]@));
    assert forall|i: int| 0 <= i < parts.len() implies shows(#[trigger] parts[i], tables[i]) by {
        lemma_path_shown(*paths[i], percents[i]@);
    }
    lemma_tables(parts, tables);
    lemma_rows(t7, b3, in_a_row(parts), tables.flatten_alt());
    let b4 = b3 + tables.flatten_alt();
    let t8 = t7 + in_a_row(parts);
    let t9 = t8 + "\n"@;
    assert(t9 =~= t8 + seq!['\n']) by {
        reveal_strlit("\n");
    }
    lemma_newline(t8, b4, c8, 0);
    let b5 = b4.push(c8);
    let c9 = Seq::<Seq<char>>::empty();
    lemma_skipped_shown(schema.unparseable);
    lemma_rows(t9, b5, skipped_on_paper(schema.unparseable), skipped_table(schema.unparseable));
    let b6 = b5 + skipped_table(schema.unparseable);
    let t10 = t9 + skipped_on_paper(schema.unparseable);
    lemma_capped_shown(schema.paths_capped);
    lemma_rows(t10, b6, capped_on_paper(schema.paths_capped), capped_table(schema.paths_capped));
    let b7 = b6 + capped_table(schema.paths_capped);
    let t11 = t10 + capped_on_paper(schema.paths_capped);
    assert(schema_on_paper(schema, paths, percents, file) =~= t11);
    assert(b7 =~~= schema_table(schema, paths, percents, file));
    lemma_all_shown(t11, b7);
}

/// A count has a comma before every three digits from the end, where digits come before
/// them, and is the plain number without its commas.
pub proof fn law_counts_are_grouped_in_threes(n: nat)
    ensures
        grouped(n).filter(|c: char| c != ',') == decimal(n),
        grouped(n)[0] != ',',
        forall|k: int|
            0 <= k < grouped(n).len() ==> (#[trigger] grouped(n)[k] == ',' <==> (grouped(n).len()
                - 1 - k) % 4 == 3),
    decreases n,
{
    lemma_no_comma(n);
    if n >= 1000 {
        let high = grouped(n / 1000);
        let low = three_digits(n);
        law_counts_are_grouped_in_threes(n / 1000);
        let text = grouped(n);
        assert(text =~= high + seq![','] + low);
        assert forall|k: int| 0 <= k < text.len() implies (#[trigger] text[k] == ',' <==> (text.len()
            - 1 - k) % 4 == 3) by {
            if k < high.len() {
                assert(text[k] == high[k]);
            }
        }
        let f = |c: char| c != ',';
        lemma_filter_concat(high, seq![','] + low, f);
        assert(text =~= high + (seq![','] + low));
        lemma_filter_tail(low, f);
        assert(decimal(n) =~= decimal(n / 1000) + low) by {
            lemma_last_three(n);
        }
    }
}

proof fn lemma_last_three(n: nat)
    requires
        n >= 1000,
    ensures
        decimal(n) == decimal(n / 1000) + three_digits(n),
{
    reveal_with_fuel(decimal, 4);
    assert(n / 10 / 10 == n / 100);
    assert(n / 100 / 10 == n / 1000);
    assert(decimal(n) =~= decimal(n / 1000) + three_digits(n));
}

proof fn lemma_no_comma(n: nat)
    ensures
        decimal(n).len() > 0,
        n < 1000 ==> decimal(n).len() <= 3,
        forall|k: int| 0 <= k < decimal(n).len() ==> #[trigger] decimal(n)[k] != ',',
        decimal(n).filter(|c: char| c != ',') == decimal(n),
    decreases n,
{
    reveal(Seq::filter);
    if n >= 10 {
        lemma_no_comma(n / 10);
        let d = decimal(n);
        assert(d.drop_last() =~= decimal(n / 10));
        assert(d.filter(|c: char| c != ',') =~= d);
        if n < 1000 {
            reveal_with_fuel(decimal, 4);
        }
        assert forall|k: int| 0 <= k < d.len() implies #[trigger] d[k] != ',' by {
            if k < decimal(n / 10).len() {
                assert(d[k] == decimal(n / 10)[k]);
            }
        }
    } else {
        let d = decimal(n);
        assert(d.drop_last() =~= Seq::empty());
        assert(d.filter(|c: char| c != ',') =~= d);
    }
}

proof fn lemma_filter_concat(a: Seq<char>, b: Seq<char>, f: spec_fn(char) -> bool)
    ensures
        (a + b).filter(f) == a.filter(f) + b.filter(f),
    decreases b.len(),
{
    reveal(Seq::filter);
    if b.len() == 0 {
        assert(a + b =~= a);
        assert(a.filter(f) + b.filter(f) =~= a.filter(f));
    } else {
        assert((a + b).drop_last() =~= a + b.drop_last());
        lemma_filter_concat(a, b.drop_last(), f);
        assert((a + b).filter(f) =~= a.filter(f) + b.filter(f));
    }
}

proof fn lemma_filter_tail(low: Seq<char>, f: spec_fn(char) -> bool)
    requires
        low.len() == 3,
        !f(','),
        f(low[0]) && f(low[1]) && f(low[2]),
    ensures
        (seq![','] + low).filter(f) == low,
{
    reveal(Seq::filter);
    let s = seq![','] + low;
    let s3 = s.drop_last();
    let s2 = s3.drop_last();
    let s1 = s2.drop_last();
    assert(s1.drop_last() =~= Seq::empty());
    assert(s1.drop_last().filter(f) =~= Seq::empty());
    assert(s1.filter(f) =~= Seq::empty());
    assert(s2.filter(f) =~= seq![low[0]]);
    assert(s3.filter(f) =~= seq![low[0], low[1]]);
    assert(s.filter(f) =~= low);
}

/// A text that is filled up keeps all it holds, and is as wide as asked for unless it is
/// wider already; what is added is spaces on one side.
pub proof fn law_padding_adds_spaces_alone(s: Seq<char>, width: nat)
    ensures
        padded_right(s, width as int).take(s.len() as int) == s,
        padded_left(s, width as int).skip(padded_left(s, width as int).len() - s.len()) == s,
        padded_right(s, width as int).len() == padded_left(s, width as int).len(),
        padded_right(s, width as int).len() == if s.len() < width {
            width
        } else {
            s.len()
        },
        forall|k: int|
            s.len() <= k < padded_right(s, width as int).len() ==> #[trigger] padded_right(
                s,
                width as int,
            )[k] == ' ',
        forall|k: int|
            0 <= k < padded_left(s, width as int).len() - s.len() ==> #[trigger] padded_left(
                s,
                width as int,
            )[k] == ' ',
{
    assert(padded_right(s, width as int).take(s.len() as int) =~= s);
    let left = padded_left(s, width as int);
    assert(left.skip(left.len() - s.len()) =~= s);
}

/// A figure that is missing is a dash, and one that is there is a count.
pub proof fn law_missing_figures_are_dashes(n: u64, s: String, other: Seq<char>)
    ensures
        count_or_dash(None) == "-"@,
        count_or_dash(Some(n)) == grouped(n as nat),
        text_or(None, other) == other,
        text_or(Some(s), other) == s@,
{
}

/// What fits its column starts or ends where its column does: a key at the left of 24
/// places, its count at the right of the next ten, and its percentage at the right of
/// five more.
pub proof fn law_keys_line_up(key: KeyStats, percent: Seq<char>)
    requires
        key.key@.len() <= 24,
        grouped(key.count as nat).len() <= 10,
        percent.len() <= 5,
    ensures
        ({
            let row = key_on_paper(key, percent);
            let count = grouped(key.count as nat);
            &&& row.subrange(2, 2 + key.key@.len() as int) == key.key@
            &&& row.subrange(37 - count.len(), 37) == count
            &&& row.subrange(44 - percent.len(), 44) == percent
            &&& row[44] == '%'
            &&& row.skip(47) == types_on_paper(key.types@) + seq!['\n']
        }),
{
    reveal_strlit("  ");
    reveal_strlit(" ");
    reveal_strlit("%  ");
    reveal_strlit("\n");
    let row = key_on_paper(key, percent);
    let count = grouped(key.count as nat);
    assert(padded_right(key.key@, 24).len() == 24);
    assert(padded_left(count, 10).len() == 10);
    assert(padded_left(percent, 5).len() == 5);
    assert(row.subrange(2, 2 + key.key@.len() as int) =~= key.key@);
    assert(row.subrange(37 - count.len(), 37) =~= count);
    assert(row.subrange(44 - percent.len(), 44) =~= percent);
    assert(row.skip(47) =~= types_on_paper(key.types@) + seq!['\n']);
}

/// A path stands at the left of 40 places, and its percentage at the right of the six
/// that follow, where they fit.
pub proof fn law_paths_line_up(path: PathStats, percent: Seq<char>)
    requires
        path.path@.len() <= 40,
        percent.len() <= 6,
    ensures
        ({
            let row = path_on_paper(path, percent);
            &&& row.subrange(2, 2 + path.path@.len() as int) == path.path@
            &&& row.subrange(49 - percent.len(), 49) == percent
            &&& row[49] == '%'
            &&& row.skip(52) == types_on_paper(path.types@) + seq!['\n']
        }),
{
    reveal_strlit("  ");
    reveal_strlit(" ");
    reveal_strlit("%  ");
    reveal_strlit("\n");
    let row = path_on_paper(path, percent);
    assert(padded_right(path.path@, 40).len() == 40);
    assert(padded_left(percent, 6).len() == 6);
    assert(row.subrange(2, 2 + path.path@.len() as int) =~= path.path@);
    assert(row.subrange(49 - percent.len(), 49) =~= percent);
    assert(row.skip(52) =~= types_on_paper(path.types@) + seq!['\n']);
}

/// The count of a frequent value stands at the right of ten places, its percentage at
/// the right of the five that follow, where they fit, and then comes the value.
pub proof fn law_frequent_values_line_up(entry: (String, u64), percent: Seq<char>)
    requires
        grouped(entry.1 as nat).len() <= 10,
        percent.len() <= 5,
    ensures
        ({
            let row = value_on_paper(entry, percent);
            let count = grouped(entry.1 as nat);
            &&& row.subrange(12 - count.len(), 12) == count
            &&& row.subrange(19 - percent.len(), 19) == percent
            &&& row[19] == '%'
            &&& row.skip(22) == entry.0@ + seq!['\n']
        }),
{
    reveal_strlit("  ");
    reveal_strlit("%  ");
    reveal_strlit("\n");
    let row = value_on_paper(entry, percent);
    let count = grouped(entry.1 as nat);
    assert(padded_left(count, 10).len() == 10);
    assert(padded_left(percent, 5).len() == 5);
    assert(row.subrange(12 - count.len(), 12) =~= count);
    assert(row.subrange(19 - percent.len(), 19) =~= percent);
    assert(row.skip(22) =~= entry.0@ + seq!['\n']);
}

} // verus!
