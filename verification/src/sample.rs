//! Lines picked from an input: the first ones, or a random sample.

use crate::lines::{
    is_blank_line, law_blank_lines_hold_whitespace_alone, law_lines_are_numbered_in_order,
    lemma_raw_line, lines_after, lines_of, raw_line_len, Line, LineModel, LineReader,
};
use crate::rng::{
    drawn, kept, law_sample_is_taken_from_the_stream, sampled, Reservoir, SplitMix64,
};
use crate::tally::{lemma_same_items_len, same_items};
use vstd::prelude::*;

verus! {

/// A line's number and content.
pub open spec fn numbered(line: LineModel) -> (nat, Seq<u8>) {
    (line.number, line.bytes)
}

/// The numbers and contents of those lines that are not blank.
pub open spec fn candidates(lines: Seq<LineModel>) -> Seq<(nat, Seq<u8>)>
    decreases lines.len(),
{
    if lines.len() == 0 {
        Seq::empty()
    } else if is_blank_line(lines.last().bytes) {
        candidates(lines.drop_last())
    } else {
        candidates(lines.drop_last()).push(numbered(lines.last()))
    }
}

/// The lines behind some picked ones.
pub open spec fn picked(sample: Seq<(u64, Vec<u8>)>) -> Seq<(nat, Seq<u8>)> {
    sample.map_values(|p: (u64, Vec<u8>)| (p.0 as nat, p.1@))
}

/// Each line has a larger number than those before it.
pub open spec fn in_line_order(lines: Seq<(nat, Seq<u8>)>) -> bool {
    forall|i: int, j: int|
        0 <= i < j < lines.len() ==> (#[trigger] lines[i]).0 < (#[trigger] lines[j]).0
}

/// Lines picked from others: those that the seed leaves in a reservoir of size
/// `n`, in the order of the input.
pub open spec fn is_sample(
    picked: Seq<(nat, Seq<u8>)>,
    lines: Seq<LineModel>,
    n: nat,
    seed: u64,
) -> bool {
    in_line_order(picked) && same_items(picked, sampled(candidates(lines), n, seed).0)
}

/// Some line has the given number.
pub open spec fn has_number(lines: Seq<LineModel>, number: nat) -> bool {
    exists|k: int| 0 <= k < lines.len() && (#[trigger] lines[k]).number == number
}

/// The first `n` lines of an input, or all of them if there are no more.
pub open spec fn first_lines(lines: Seq<LineModel>, n: nat) -> Seq<LineModel> {
    if n < lines.len() {
        lines.take(n as int)
    } else {
        lines
    }
}

/// The lines behind some exec lines.
pub open spec fn models(lines: Seq<Line>) -> Seq<LineModel> {
    lines.map_values(|l: Line| l@)
}

/// Counts the lines that are still to be shown.
#[derive(Debug, Clone)]
pub struct Head {
    left: usize,
}

impl Head {
    /// How many lines are still to be shown.
    pub closed spec fn left(&self) -> nat {
        self.left as nat
    }

    /// A count of `n` lines to be shown.
    pub fn new(n: usize) -> (head: Self)
        ensures
            head.left() == n,
    {
        Head { left: n }
    }

    /// Whether a further line would be shown.
    pub fn goes_on(&self) -> (more: bool)
        ensures
            more == (self.left() > 0),
    {
        self.left > 0
    }

    /// Takes the next line into account, and says whether to show it.
    pub fn take(&mut self) -> (show: bool)
        ensures
            show == (old(self).left() > 0),
            final(self).left() == if old(self).left() > 0 {
                old(self).left() - 1
            } else {
                0
            },
    {
        if self.left == 0 {
            return false;
        }
        self.left = self.left - 1;
        true
    }
}

/// The lines that are shown of some lines, taken into account one by one, when
/// `n` are to be shown.
pub open spec fn shown(lines: Seq<LineModel>, n: nat) -> Seq<LineModel>
    decreases lines.len(),
{
    if lines.len() == 0 || n == 0 {
        Seq::empty()
    } else {
        seq![lines[0]] + shown(lines.skip(1), (n - 1) as nat)
    }
}

/// Showing lines while some are left to be shown shows the first `n`.
pub proof fn law_shown_lines_are_the_first(lines: Seq<LineModel>, n: nat)
    ensures
        shown(lines, n) == first_lines(lines, n),
    decreases lines.len(),
{
    if lines.len() > 0 && n > 0 {
        law_shown_lines_are_the_first(lines.skip(1), (n - 1) as nat);
    }
    assert(shown(lines, n) =~= first_lines(lines, n));
}

/// The first `n` lines of an input.
pub fn head<'a>(input: &'a [u8], n: usize) -> (lines: Vec<Line<'a>>)
    ensures
        models(lines@) == first_lines(lines_of(input@), n as nat),
{
    let mut reader = LineReader::new(input);
    let mut count = Head::new(n);
    let mut lines: Vec<Line<'a>> = Vec::new();
    let ghost mut rest = input@;
    assert(models(lines@) + lines_of(input@) =~= lines_of(input@));
    while count.goes_on()
        invariant
            reader.wf(),
            rest == reader.rest(),
            lines@.len() + count.left() == n,
            lines_of(input@) == models(lines@) + lines_after(rest, reader.lines()),
        decreases count.left(),
    {
        proof {
            lemma_raw_line(rest);
        }
        match reader.read_line() {
            None => {
                assert(models(lines@) + lines_after(rest, reader.lines()) =~= models(lines@));
                assert(first_lines(lines_of(input@), n as nat) =~= models(lines@));
                return lines;
            },
            Some(line) => {
                let ghost before = models(lines@);
                let ghost cut = raw_line_len(rest) as int;
                if count.take() {
                    lines.push(line);
                }
                proof {
                    assert(models(lines@) =~= before.push(line@));
                    assert(before + (seq![line@] + lines_after(rest.skip(cut), reader.lines()))
                        =~= models(lines@) + lines_after(rest.skip(cut), reader.lines()));
                    rest = reader.rest();
                }
            },
        }
    }
    proof {
        let all = lines_of(input@);
        assert(models(lines@).len() == n);
        assert(all.take(n as int) =~= models(lines@));
        assert(first_lines(all, n as nat) =~= models(lines@));
    }
    lines
}

/// A copy of some bytes.
fn copy_of(bytes: &[u8]) -> (copy: Vec<u8>)
    ensures
        copy@ == bytes@,
{
    let mut copy: Vec<u8> = Vec::new();
    copy.extend_from_slice(bytes);
    assert(copy@ =~= bytes@);
    copy
}

/// A uniform random sample of the non-blank lines of an input, taken in one
/// pass.
pub struct LineSample {
    reservoir: Reservoir<(u64, Vec<u8>)>,
    rng: SplitMix64,
    seed: Ghost<u64>,
    history: Ghost<Seq<LineModel>>,
}

impl LineSample {
    /// The lines offered so far.
    pub closed spec fn history(&self) -> Seq<LineModel> {
        self.history@
    }

    /// The most lines that are picked.
    pub closed spec fn limit(&self) -> nat {
        self.reservoir.limit()
    }

    /// The seed that decides which lines are picked.
    pub closed spec fn seed(&self) -> u64 {
        self.seed@
    }

    /// The sample is the one that the seed picks from the lines offered, which
    /// came in the order of their numbers.
    pub closed spec fn wf(&self) -> bool {
        let lines = candidates(self.history@);
        &&& self.reservoir.wf()
        &&& self.reservoir.offered() == lines.len()
        &&& (picked(self.reservoir@), self.rng.state()) == sampled(
            lines,
            self.reservoir.limit(),
            self.seed@,
        )
        &&& in_line_order(lines)
        &&& forall|i: int|
            0 <= i < lines.len() ==> has_number(self.history@, (#[trigger] lines[i]).0)
    }

    /// A sample of at most `n` lines, none offered yet.
    pub fn new(n: usize, seed: u64) -> (sample: Self)
        ensures
            sample.wf(),
            sample.limit() == n,
            sample.seed() == seed,
            sample.history() == Seq::<LineModel>::empty(),
    {
        let sample = LineSample {
            reservoir: Reservoir::new(n),
            rng: SplitMix64::new(seed),
            seed: Ghost(seed),
            history: Ghost(Seq::empty()),
        };
        assert(picked(sample.reservoir@) =~= Seq::empty());
        sample
    }

    /// Offers the next line. A blank one is passed over.
    pub fn add_line(&mut self, line: &Line)
        requires
            old(self).wf(),
            old(self).history().len() < u64::MAX,
            forall|k: int|
                0 <= k < old(self).history().len() ==> (
                #[trigger] old(self).history()[k]).number < line.number,
        ensures
            final(self).wf(),
            final(self).limit() == old(self).limit(),
            final(self).seed() == old(self).seed(),
            final(self).history() == old(self).history().push(line@),
    {
        let ghost before = self.history@;
        let ghost after = before.push(line@);
        let ghost earlier = candidates(before);
        proof {
            assert(after.drop_last() =~= before);
            lemma_candidates_count(before);
        }
        self.history = Ghost(after);
        if line.is_blank() {
            proof {
                lemma_numbers_stay(earlier, before, line@);
            }
            return;
        }
        let ghost slots = self.reservoir@;
        let ghost state = self.rng.state();
        let bytes: Vec<u8> = copy_of(line.bytes);
        self.reservoir.add((line.number, bytes), &mut self.rng);
        proof {
            let now = candidates(after);
            let item = (line.number, bytes);
            let draw = drawn(state, now.len() as u64) as nat;
            assert(bytes@ == line.bytes@);
            assert(now.drop_last() =~= earlier);
            assert(picked(self.reservoir@) =~= kept(
                picked(slots),
                self.reservoir.limit(),
                numbered(line@),
                draw,
            ));
            lemma_numbers_stay(earlier, before, line@);
            assert forall|i: int| 0 <= i < now.len() implies has_number(
                after,
                (#[trigger] now[i]).0,
            ) by {
                if i < earlier.len() {
                    assert(now[i] == earlier[i]);
                } else {
                    assert(after[before.len() as int] == line@);
                }
            }
            assert forall|i: int, j: int| 0 <= i < j < now.len() implies (#[trigger] now[i]).0 < (
            #[trigger] now[j]).0 by {
                assert(now[i] == earlier[i]);
                if j < earlier.len() {
                    assert(now[j] == earlier[j]);
                } else {
                    assert(has_number(before, earlier[i].0));
                    let k = choose|k: int|
                        0 <= k < before.len() && (#[trigger] before[k]).number == earlier[i].0;
                    assert(before[k].number < line.number);
                }
            }
        }
    }

    /// The picked lines with their numbers, in the order of the input.
    pub fn into_lines(self) -> (lines: Vec<(u64, Vec<u8>)>)
        requires
            self.wf(),
        ensures
            is_sample(picked(lines@), self.history(), self.limit(), self.seed()),
    {
        let ghost stream = candidates(self.history@);
        let ghost sample = picked(self.reservoir@);
        let ghost places = law_sample_is_taken_from_the_stream(
            stream,
            self.reservoir.limit(),
            self.seed@,
        );
        let lines: Vec<(u64, Vec<u8>)> = self.reservoir.into_vec();
        proof {
            assert forall|i: int, j: int| 0 <= i < j < sample.len() implies (
            #[trigger] sample[i]).0 != (#[trigger] sample[j]).0 by {
                assert(sample[i] == stream[places[i]]);
                assert(sample[j] == stream[places[j]]);
                assert(places[i] != places[j]);
                if places[i] < places[j] {
                    assert(stream[places[i]].0 < stream[places[j]].0);
                } else {
                    assert(stream[places[j]].0 < stream[places[i]].0);
                }
            }
        }
        let sorted: Vec<(u64, Vec<u8>)> = sort(lines, true);
        proof {
            let now = picked(sorted@);
            now.to_multiset_ensures();
            sample.to_multiset_ensures();
            assert forall|x: (nat, Seq<u8>)| #[trigger] now.contains(x) <==> sample.contains(x) by {
                assert(now.contains(x) <==> now.to_multiset().count(x) > 0);
                assert(sample.contains(x) <==> sample.to_multiset().count(x) > 0);
            }
            assert forall|i: int, j: int| 0 <= i < j < now.len() implies (#[trigger] now[i]).0 < (
            #[trigger] now[j]).0 by {
                assert(comes_first(now[i].0, now[j].0, true));
            }
        }
        sorted
    }
}

/// Which of two numbers comes first when numbers go up, or when they go down.
spec fn comes_first(a: nat, b: nat, up: bool) -> bool {
    if up {
        a < b
    } else {
        a > b
    }
}

/// Line numbers that go up, or down.
spec fn goes(lines: Seq<(nat, Seq<u8>)>, up: bool) -> bool {
    forall|i: int, j: int|
        0 <= i < j < lines.len() ==> comes_first(
            (#[trigger] lines[i]).0,
            (#[trigger] lines[j]).0,
            up,
        )
}

/// No two lines have the same number.
spec fn numbers_differ(lines: Seq<(nat, Seq<u8>)>) -> bool {
    forall|i: int, j: int|
        0 <= i < j < lines.len() ==> (#[trigger] lines[i]).0 != (#[trigger] lines[j]).0
}

/// Each of some lines comes before each of others.
spec fn all_before(a: Seq<(nat, Seq<u8>)>, b: Seq<(nat, Seq<u8>)>, up: bool) -> bool {
    forall|i: int, j: int|
        0 <= i < a.len() && 0 <= j < b.len() ==> comes_first(
            (#[trigger] a[i]).0,
            (#[trigger] b[j]).0,
            up,
        )
}

/// No line has a number that one of the others has.
spec fn numbers_apart(a: Seq<(nat, Seq<u8>)>, b: Seq<(nat, Seq<u8>)>) -> bool {
    forall|i: int, j: int|
        0 <= i < a.len() && 0 <= j < b.len() ==> (#[trigger] a[i]).0 != (#[trigger] b[j]).0
}

/// Moves the last of `from`, which comes next, to the end of `out`.
proof fn lemma_move(
    out: Seq<(nat, Seq<u8>)>,
    from: Seq<(nat, Seq<u8>)>,
    other: Seq<(nat, Seq<u8>)>,
    up: bool,
)
    requires
        from.len() > 0,
        goes(out, up),
        goes(from, !up),
        goes(other, !up),
        all_before(out, from, up),
        all_before(out, other, up),
        other.len() > 0 ==> comes_first(from.last().0, other.last().0, up),
    ensures
        goes(out.push(from.last()), up),
        goes(from.drop_last(), !up),
        all_before(out.push(from.last()), from.drop_last(), up),
        all_before(out.push(from.last()), other, up),
        out.push(from.last()).to_multiset().add(from.drop_last().to_multiset())
            == out.to_multiset().add(from.to_multiset()),
{
    let line = from.last();
    let now = out.push(line);
    let left = from.drop_last();
    let n = from.len() - 1;
    assert forall|i: int, j: int| 0 <= i < j < now.len() implies comes_first(
        (#[trigger] now[i]).0,
        (#[trigger] now[j]).0,
        up,
    ) by {
        assert(now[i] == out[i]);
        if j < out.len() {
            assert(now[j] == out[j]);
        } else {
            assert(comes_first(out[i].0, from[n].0, up));
        }
    }
    assert forall|i: int, j: int| 0 <= i < now.len() && 0 <= j < left.len() implies comes_first(
        (#[trigger] now[i]).0,
        (#[trigger] left[j]).0,
        up,
    ) by {
        assert(left[j] == from[j]);
        if i < out.len() {
            assert(now[i] == out[i]);
        } else {
            assert(comes_first(from[j].0, from[n].0, !up));
        }
    }
    assert forall|i: int, j: int| 0 <= i < now.len() && 0 <= j < other.len() implies comes_first(
        (#[trigger] now[i]).0,
        (#[trigger] other[j]).0,
        up,
    ) by {
        if i < out.len() {
            assert(now[i] == out[i]);
        } else if j < other.len() - 1 {
            assert(comes_first(other[j].0, other[other.len() - 1].0, !up));
        }
    }
    assert forall|i: int, j: int| 0 <= i < j < left.len() implies comes_first(
        (#[trigger] left[i]).0,
        (#[trigger] left[j]).0,
        !up,
    ) by {
        assert(left[i] == from[i] && left[j] == from[j]);
    }
    out.to_multiset_ensures();
    left.to_multiset_ensures();
    assert(left.push(line) =~= from);
    assert(now.to_multiset().add(left.to_multiset()) =~= out.to_multiset().add(from.to_multiset()));
}

/// Merges lines whose numbers go one way into lines whose numbers go the other.
fn merge(
    left: Vec<(u64, Vec<u8>)>,
    right: Vec<(u64, Vec<u8>)>,
    up: bool,
) -> (merged: Vec<(u64, Vec<u8>)>)
    requires
        goes(picked(left@), !up),
        goes(picked(right@), !up),
        numbers_apart(picked(left@), picked(right@)),
    ensures
        goes(picked(merged@), up),
        picked(merged@).to_multiset() == picked(left@).to_multiset().add(
            picked(right@).to_multiset(),
        ),
{
    let ghost all = picked(left@).to_multiset().add(picked(right@).to_multiset());
    let mut left: Vec<(u64, Vec<u8>)> = left;
    let mut right: Vec<(u64, Vec<u8>)> = right;
    let mut out: Vec<(u64, Vec<u8>)> = Vec::new();
    proof {
        assert(picked(out@) =~= Seq::empty());
        picked(out@).to_multiset_ensures();
        assert(picked(out@).to_multiset().add(picked(left@).to_multiset()).add(
            picked(right@).to_multiset(),
        ) =~= all);
    }
    loop
        invariant
            goes(picked(out@), up),
            goes(picked(left@), !up),
            goes(picked(right@), !up),
            numbers_apart(picked(left@), picked(right@)),
            all_before(picked(out@), picked(left@), up),
            all_before(picked(out@), picked(right@), up),
            picked(out@).to_multiset().add(picked(left@).to_multiset()).add(
                picked(right@).to_multiset(),
            ) == all,
        ensures
            goes(picked(out@), up),
            picked(out@).to_multiset() == all,
        decreases left@.len() + right@.len(),
    {
        let n: usize = left.len();
        let m: usize = right.len();
        let ghost o = picked(out@);
        let ghost l = picked(left@);
        let ghost r = picked(right@);
        proof {
            if n > 0 && m > 0 {
                assert(l[n - 1].0 == left@[n - 1].0 && r[m - 1].0 == right@[m - 1].0);
                assert(l[n - 1].0 != r[m - 1].0);
            }
        }
        let from_left: bool = if n == 0 {
            false
        } else if m == 0 {
            true
        } else {
            (left[n - 1].0 < right[m - 1].0) == up
        };
        if from_left {
            if let Some(line) = left.pop() {
                out.push(line);
                proof {
                    lemma_move(o, l, r, up);
                    assert(picked(out@) =~= o.push(l.last()));
                    assert(picked(left@) =~= l.drop_last());
                }
            }
        } else if let Some(line) = right.pop() {
            out.push(line);
            proof {
                lemma_move(o, r, l, up);
                assert(picked(out@) =~= o.push(r.last()));
                assert(picked(right@) =~= r.drop_last());
                assert(picked(out@).to_multiset().add(l.to_multiset()).add(
                    r.drop_last().to_multiset(),
                ) =~= picked(out@).to_multiset().add(r.drop_last().to_multiset()).add(
                    l.to_multiset(),
                ));
                assert(o.to_multiset().add(r.to_multiset()).add(l.to_multiset())
                    =~= o.to_multiset().add(l.to_multiset()).add(r.to_multiset()));
            }
        } else {
            proof {
                l.to_multiset_ensures();
                r.to_multiset_ensures();
                assert(l =~= Seq::empty() && r =~= Seq::empty());
                assert(o.to_multiset().add(l.to_multiset()).add(r.to_multiset())
                    =~= o.to_multiset());
            }
            break;
        }
    }
    out
}

/// Sorts lines by number, going up or down.
fn sort(lines: Vec<(u64, Vec<u8>)>, up: bool) -> (sorted: Vec<(u64, Vec<u8>)>)
    requires
        numbers_differ(picked(lines@)),
    ensures
        goes(picked(sorted@), up),
        picked(sorted@).to_multiset() == picked(lines@).to_multiset(),
    decreases lines@.len(),
{
    if lines.len() < 2 {
        return lines;
    }
    let ghost all = picked(lines@);
    let mut lines: Vec<(u64, Vec<u8>)> = lines;
    let half: usize = lines.len() / 2;
    let rest: Vec<(u64, Vec<u8>)> = lines.split_off(half);
    let ghost l = picked(lines@);
    let ghost r = picked(rest@);
    proof {
        assert(l =~= all.take(half as int));
        assert(r =~= all.skip(half as int));
        assert(all =~= l + r);
        vstd::seq_lib::lemma_multiset_commutative(l, r);
        assert forall|i: int, j: int| 0 <= i < j < l.len() implies (#[trigger] l[i]).0 != (
        #[trigger] l[j]).0 by {
            assert(all[i].0 != all[j].0);
        }
        assert forall|i: int, j: int| 0 <= i < j < r.len() implies (#[trigger] r[i]).0 != (
        #[trigger] r[j]).0 by {
            assert(all[half + i].0 != all[half + j].0);
        }
    }
    let left: Vec<(u64, Vec<u8>)> = sort(lines, !up);
    let right: Vec<(u64, Vec<u8>)> = sort(rest, !up);
    proof {
        let a = picked(left@);
        let b = picked(right@);
        assert forall|i: int, j: int| 0 <= i < a.len() && 0 <= j < b.len() implies (
        #[trigger] a[i]).0 != (#[trigger] b[j]).0 by {
            lemma_same_multiset(a, l, i);
            lemma_same_multiset(b, r, j);
            let p = choose|p: int| 0 <= p < l.len() && l[p] == a[i];
            let q = choose|q: int| 0 <= q < r.len() && r[q] == b[j];
            assert(all[p].0 != all[half + q].0);
        }
    }
    merge(left, right, up)
}

/// What one of two sequences with the same items holds, the other holds too.
proof fn lemma_same_multiset<K>(a: Seq<K>, b: Seq<K>, i: int)
    requires
        a.to_multiset() == b.to_multiset(),
        0 <= i < a.len(),
    ensures
        b.contains(a[i]),
{
    a.to_multiset_ensures();
    b.to_multiset_ensures();
    assert(a.contains(a[i]));
    assert(a.to_multiset().count(a[i]) > 0);
}

proof fn lemma_candidates_count(lines: Seq<LineModel>)
    ensures
        candidates(lines).len() <= lines.len(),
    decreases lines.len(),
{
    if lines.len() > 0 {
        lemma_candidates_count(lines.drop_last());
    }
}

/// One more line does not take a number away.
proof fn lemma_numbers_stay(lines: Seq<(nat, Seq<u8>)>, history: Seq<LineModel>, line: LineModel)
    requires
        forall|i: int| 0 <= i < lines.len() ==> has_number(history, (#[trigger] lines[i]).0),
    ensures
        forall|i: int|
            0 <= i < lines.len() ==> has_number(history.push(line), (#[trigger] lines[i]).0),
{
    assert forall|i: int| 0 <= i < lines.len() implies has_number(
        history.push(line),
        (#[trigger] lines[i]).0,
    ) by {
        assert(has_number(history, lines[i].0));
        let k = choose|k: int|
            0 <= k < history.len() && (#[trigger] history[k]).number == lines[i].0;
        assert(history.push(line)[k] == history[k]);
    }
}

/// A sample holds lines of the input, each at most once, none of them blank,
/// and as many as it can.
pub proof fn law_sample_holds_lines_of_the_input(lines: Seq<LineModel>, n: nat, seed: u64)
    ensures
        sampled(candidates(lines), n, seed).0.len() == if candidates(lines).len() < n {
            candidates(lines).len()
        } else {
            n
        },
        forall|x: (nat, Seq<u8>)| #[trigger]
            sampled(candidates(lines), n, seed).0.contains(x) ==> !is_blank_line(x.1) && exists|
                k: int,
            |
                0 <= k < lines.len() && x == numbered(#[trigger] lines[k]),
{
    let stream = candidates(lines);
    let sample = sampled(stream, n, seed).0;
    let places = law_sample_is_taken_from_the_stream(stream, n, seed);
    assert forall|x: (nat, Seq<u8>)| #[trigger] sample.contains(x) implies !is_blank_line(x.1)
        && exists|k: int| 0 <= k < lines.len() && x == numbered(#[trigger] lines[k]) by {
        let i = choose|i: int| 0 <= i < sample.len() && sample[i] == x;
        assert(sample[i] == stream[places[i]]);
        lemma_candidate(lines, places[i]);
    }
}

proof fn lemma_candidate(lines: Seq<LineModel>, i: int)
    requires
        0 <= i < candidates(lines).len(),
    ensures
        !is_blank_line(candidates(lines)[i].1),
        exists|k: int| 0 <= k < lines.len() && candidates(lines)[i] == numbered(#[trigger] lines[k]),
    decreases lines.len(),
{
    let head = lines.drop_last();
    if i < candidates(head).len() {
        lemma_candidate(head, i);
        let k = choose|k: int|
            0 <= k < head.len() && candidates(head)[i] == numbered(#[trigger] head[k]);
        assert(lines[k] == head[k]);
    } else {
        assert(lines[lines.len() - 1] == lines.last());
    }
}

/// Lines in order are all different.
proof fn lemma_in_line_order(lines: Seq<(nat, Seq<u8>)>)
    requires
        in_line_order(lines),
    ensures
        lines.no_duplicates(),
{
    assert forall|i: int, j: int| 0 <= i < lines.len() && 0 <= j < lines.len() && i != j implies
        lines[i] != lines[j] by {
        if i < j {
            assert(lines[i].0 < lines[j].0);
        } else {
            assert(lines[j].0 < lines[i].0);
        }
    }
}

/// Of the same lines there is one order only.
proof fn lemma_one_line_order(a: Seq<(nat, Seq<u8>)>, b: Seq<(nat, Seq<u8>)>, i: int)
    requires
        in_line_order(a),
        in_line_order(b),
        same_items(a, b),
        0 <= i < a.len(),
        a.len() == b.len(),
    ensures
        a[i] == b[i],
    decreases i,
{
    assert forall|k: int| 0 <= k < i implies #[trigger] a[k] == b[k] by {
        lemma_one_line_order(a, b, k);
    }
    assert(a.contains(a[i]));
    assert(b.contains(a[i]));
    let j = choose|j: int| 0 <= j < b.len() && b[j] == a[i];
    assert(b.contains(b[i]));
    assert(a.contains(b[i]));
    let k = choose|k: int| 0 <= k < a.len() && a[k] == b[i];
    if j < i {
        assert(a[j] == b[j]);
        assert(a[j].0 < a[i].0);
    }
    if k < i {
        assert(a[k] == b[k]);
        assert(b[k].0 < b[i].0);
    }
    if j > i && k > i {
        assert(b[i].0 < b[j].0);
        assert(a[i].0 < a[k].0);
    }
}

/// The candidates keep the order of the lines.
proof fn lemma_candidates_in_order(lines: Seq<LineModel>)
    requires
        forall|i: int, j: int|
            0 <= i < j < lines.len() ==> (#[trigger] lines[i]).number < (
            #[trigger] lines[j]).number,
    ensures
        in_line_order(candidates(lines)),
    decreases lines.len(),
{
    if lines.len() > 0 {
        let head = lines.drop_last();
        assert forall|i: int, j: int| 0 <= i < j < head.len() implies (#[trigger] head[i]).number
            < (#[trigger] head[j]).number by {
            assert(lines[i].number < lines[j].number);
        }
        lemma_candidates_in_order(head);
        let earlier = candidates(head);
        let now = candidates(lines);
        assert forall|i: int, j: int| 0 <= i < j < now.len() implies (#[trigger] now[i]).0 < (
        #[trigger] now[j]).0 by {
            assert(now[i] == earlier[i]);
            if j < earlier.len() {
                assert(now[j] == earlier[j]);
            } else {
                lemma_candidate(head, i);
                let k = choose|k: int|
                    0 <= k < head.len() && earlier[i] == numbered(#[trigger] head[k]);
                assert(lines[k].number < lines[lines.len() - 1].number);
            }
        }
    }
}

/// A sample of an input is settled by the size and the seed: two samples are the
/// same. It has as many lines as it may, and no more than are not blank; they
/// stand at places of the input that differ and go up, and none is blank.
pub proof fn law_sample_is_settled(
    input: Seq<u8>,
    n: nat,
    seed: u64,
    a: Seq<(nat, Seq<u8>)>,
    b: Seq<(nat, Seq<u8>)>,
) -> (places: Seq<int>)
    requires
        is_sample(a, lines_of(input), n, seed),
        is_sample(b, lines_of(input), n, seed),
    ensures
        a == b,
        a.len() == if candidates(lines_of(input)).len() < n {
            candidates(lines_of(input)).len()
        } else {
            n
        },
        places.len() == a.len(),
        forall|i: int|
            0 <= i < a.len() ==> 0 <= #[trigger] places[i] < candidates(lines_of(input)).len()
                && a[i] == candidates(lines_of(input))[places[i]],
        forall|i: int, j: int|
            0 <= i < j < a.len() ==> #[trigger] places[i] < #[trigger] places[j],
        forall|i: int| 0 <= i < a.len() ==> !is_blank_line((#[trigger] a[i]).1),
{
    let lines = lines_of(input);
    let stream = candidates(lines);
    let sample = sampled(stream, n, seed).0;
    assert forall|i: int, j: int| 0 <= i < j < lines.len() implies (#[trigger] lines[i]).number < (
    #[trigger] lines[j]).number by {
        law_lines_are_numbered_in_order(input, 0, i);
        law_lines_are_numbered_in_order(input, 0, j);
    }
    lemma_candidates_in_order(lines);
    let drawn_places = law_sample_is_taken_from_the_stream(stream, n, seed);
    lemma_in_line_order(stream);
    assert(sample.no_duplicates()) by {
        assert forall|i: int, j: int|
            0 <= i < sample.len() && 0 <= j < sample.len() && i != j implies sample[i]
            != sample[j] by {
            assert(sample[i] == stream[drawn_places[i]]);
            assert(sample[j] == stream[drawn_places[j]]);
        }
    }
    lemma_in_line_order(a);
    lemma_in_line_order(b);
    lemma_same_items_len(a, sample);
    lemma_same_items_len(b, sample);
    assert(same_items(a, b)) by {
        assert forall|x: (nat, Seq<u8>)| #[trigger] a.contains(x) <==> b.contains(x) by {
            assert(a.contains(x) <==> sample.contains(x));
            assert(b.contains(x) <==> sample.contains(x));
        }
    }
    assert(a =~= b) by {
        assert forall|i: int| 0 <= i < a.len() implies a[i] == b[i] by {
            lemma_one_line_order(a, b, i);
        }
    }
    assert forall|i: int| 0 <= i < a.len() implies stream.contains(#[trigger] a[i]) by {
        assert(a.contains(a[i]));
        assert(sample.contains(a[i]));
        let j = choose|j: int| 0 <= j < sample.len() && sample[j] == a[i];
        assert(stream[drawn_places[j]] == a[i]);
    }
    let places = Seq::new(a.len(), |i: int| place_in(stream, a[i]));
    assert forall|i: int| 0 <= i < a.len() implies 0 <= #[trigger] places[i] < stream.len() && a[i]
        == stream[places[i]] && !is_blank_line(a[i].1) by {
        assert(stream.contains(a[i]));
        lemma_candidate(lines, places[i]);
    }
    assert forall|i: int, j: int| 0 <= i < j < a.len() implies #[trigger] places[i]
        < #[trigger] places[j] by {
        assert(a[i].0 < a[j].0);
        if places[j] < places[i] {
            assert(stream[places[j]].0 < stream[places[i]].0);
        }
    }
    assert forall|i: int| 0 <= i < a.len() implies !is_blank_line((#[trigger] a[i]).1) by {
        assert(0 <= places[i]);
    }
    places
}

/// A place at which an item stands.
spec fn place_in<K>(items: Seq<K>, item: K) -> int {
    choose|k: int| 0 <= k < items.len() && items[k] == item
}

/// The lines offered are all lines that hold some byte other than a space, a tab,
/// a line feed, a form feed or a carriage return, in order and whole.
pub proof fn law_every_line_with_content_is_offered(lines: Seq<LineModel>)
    ensures
        candidates(lines) == lines.filter_map(
            |line: LineModel|
                if exists|i: int|
                    0 <= i < line.bytes.len() && #[trigger] line.bytes[i] != 0x20 && line.bytes[i]
                        != 0x09 && line.bytes[i] != 0x0A && line.bytes[i] != 0x0C && line.bytes[i]
                        != 0x0D {
                    Some((line.number, line.bytes))
                } else {
                    None
                },
        ),
    decreases lines.len(),
{
    if lines.len() > 0 {
        law_every_line_with_content_is_offered(lines.drop_last());
        law_blank_lines_hold_whitespace_alone(lines.last().bytes);
    }
}

/// Each line that holds more than whitespace is among the lines offered.
pub proof fn law_each_line_with_content_is_offered(lines: Seq<LineModel>, k: int, i: int)
    requires
        0 <= k < lines.len(),
        0 <= i < lines[k].bytes.len(),
        lines[k].bytes[i] != 0x20,
        lines[k].bytes[i] != 0x09,
        lines[k].bytes[i] != 0x0A,
        lines[k].bytes[i] != 0x0C,
        lines[k].bytes[i] != 0x0D,
    ensures
        candidates(lines).contains((lines[k].number, lines[k].bytes)),
    decreases lines.len(),
{
    let now = candidates(lines);
    law_blank_lines_hold_whitespace_alone(lines[k].bytes);
    if k == lines.len() - 1 {
        assert(now.last() == (lines[k].number, lines[k].bytes));
        assert(now[now.len() - 1] == now.last());
    } else {
        let head = lines.drop_last();
        assert(head[k] == lines[k]);
        law_each_line_with_content_is_offered(head, k, i);
        let p = choose|p: int|
            0 <= p < candidates(head).len() && candidates(head)[p] == (
                lines[k].number,
                lines[k].bytes,
            );
        assert(now[p] == candidates(head)[p]);
    }
}

/// A sample with room for every line that holds more than whitespace holds all of
/// them, in the order of the input, each whole.
pub proof fn law_sample_with_room_holds_every_line(
    input: Seq<u8>,
    n: nat,
    seed: u64,
    picked: Seq<(nat, Seq<u8>)>,
)
    requires
        is_sample(picked, lines_of(input), n, seed),
        n >= lines_of(input).filter(
            |line: LineModel|
                exists|i: int|
                    0 <= i < line.bytes.len() && #[trigger] line.bytes[i] != 0x20 && line.bytes[i]
                        != 0x09 && line.bytes[i] != 0x0A && line.bytes[i] != 0x0C && line.bytes[i]
                        != 0x0D,
        ).len(),
    ensures
        picked == lines_of(input).filter_map(
            |line: LineModel|
                if exists|i: int|
                    0 <= i < line.bytes.len() && #[trigger] line.bytes[i] != 0x20 && line.bytes[i]
                        != 0x09 && line.bytes[i] != 0x0A && line.bytes[i] != 0x0C && line.bytes[i]
                        != 0x0D {
                    Some((line.number, line.bytes))
                } else {
                    None
                },
        ),
{
    let lines = lines_of(input);
    let stream = candidates(lines);
    law_every_line_with_content_is_offered(lines);
    lemma_candidates_number(lines);
    let places = law_sample_is_settled(input, n, seed, picked, picked);
    assert(picked.len() == stream.len());
    assert forall|i: int| 0 <= i < picked.len() implies picked[i] == stream[i] by {
        lemma_places_are_all(places, i);
        assert(picked[i] == stream[places[i]]);
    }
    assert(picked =~= stream);
}

proof fn lemma_candidates_number(lines: Seq<LineModel>)
    ensures
        candidates(lines).len() == lines.filter(
            |line: LineModel|
                exists|i: int|
                    0 <= i < line.bytes.len() && #[trigger] line.bytes[i] != 0x20 && line.bytes[i]
                        != 0x09 && line.bytes[i] != 0x0A && line.bytes[i] != 0x0C && line.bytes[i]
                        != 0x0D,
        ).len(),
    decreases lines.len(),
{
    reveal(Seq::filter);
    if lines.len() > 0 {
        lemma_candidates_number(lines.drop_last());
        law_blank_lines_hold_whitespace_alone(lines.last().bytes);
    }
}

/// Places that go up and are as many as there are, are all of them.
proof fn lemma_places_are_all(places: Seq<int>, i: int)
    requires
        forall|i: int| 0 <= i < places.len() ==> 0 <= #[trigger] places[i] < places.len(),
        forall|i: int, j: int|
            0 <= i < j < places.len() ==> #[trigger] places[i] < #[trigger] places[j],
        0 <= i < places.len(),
    ensures
        places[i] == i,
{
    lemma_places_below(places, i);
    lemma_places_above(places, i);
}

proof fn lemma_places_below(places: Seq<int>, i: int)
    requires
        forall|i: int| 0 <= i < places.len() ==> 0 <= #[trigger] places[i] < places.len(),
        forall|i: int, j: int|
            0 <= i < j < places.len() ==> #[trigger] places[i] < #[trigger] places[j],
        0 <= i < places.len(),
    ensures
        places[i] >= i,
    decreases i,
{
    if i > 0 {
        lemma_places_below(places, i - 1);
        assert(places[i - 1] < places[i]);
    }
}

proof fn lemma_places_above(places: Seq<int>, i: int)
    requires
        forall|i: int| 0 <= i < places.len() ==> 0 <= #[trigger] places[i] < places.len(),
        forall|i: int, j: int|
            0 <= i < j < places.len() ==> #[trigger] places[i] < #[trigger] places[j],
        0 <= i < places.len(),
    ensures
        places[i] <= i,
    decreases places.len() - i,
{
    if i < places.len() - 1 {
        lemma_places_above(places, i + 1);
        assert(places[i] < places[i + 1]);
    }
}

/// The first lines of an input are as many as asked for, as far as there are any, and
/// each stands where it stands in the input.
pub proof fn law_first_lines_start_the_input(lines: Seq<LineModel>, n: nat)
    ensures
        first_lines(lines, n).len() <= n,
        first_lines(lines, n).len() <= lines.len(),
        first_lines(lines, n).len() == n || first_lines(lines, n).len() == lines.len(),
        forall|i: int|
            0 <= i < first_lines(lines, n).len() ==> #[trigger] first_lines(lines, n)[i]
                == lines[i],
{
}

/// A sample holds the lines that are left of a draw from the seed among all lines
/// offered, and no others, by their numbers.
pub proof fn law_samples_hold_what_the_draw_left(
    lines: Seq<LineModel>,
    n: nat,
    seed: u64,
    picked: Seq<(nat, Seq<u8>)>,
)
    requires
        is_sample(picked, lines, n, seed),
    ensures
        forall|line: (nat, Seq<u8>)| #[trigger]
            picked.contains(line) <==> sampled(candidates(lines), n, seed).0.contains(line),
        forall|i: int, j: int|
            0 <= i < j < picked.len() ==> (#[trigger] picked[i]).0 < (#[trigger] picked[j]).0,
{
}

} // verus!
