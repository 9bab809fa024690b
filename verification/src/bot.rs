//! A session of the game: the idioms that are still possible answers, narrowed
//! by each guess with its feedback and by each revealed character.

use crate::feedback::{
    feedback_code, feedback_value, features, parse_feedback, well_marked, FeedbackError, FIELDS,
    POSITIONS,
};
use crate::handle_pinyin::{diff_code, lemma_parsed_shape, parsed, HandlePinyin};
use crate::matrix::{fits, is_square, table_get, table_rows, table_set, table_zeros, CodeTable};
use crate::ranking::{ranking, ranking_len, top_ranked};
use crate::tally::{tallied, tally};
use crate::text::{contains, contains_text, texts};
use vstd::prelude::*;

verus! {

/// The number of guesses that are recommended at most.
pub const TOP: usize = 10;

/// Why a guess with its feedback was refused.
#[derive(Debug, Clone, Copy, PartialEq, Eq, Structural)]
pub enum GuessError {
    /// The guess does not have four characters.
    GuessLength,
    /// The feedback has more than sixteen characters.
    FeedbackLength,
    /// The feedback holds a character other than `0`, `1`, `2` and the space.
    FeedbackDigit,
}

/// A session: the lexicon, the indices of the idioms that are still possible
/// answers, the table of feedback codes of each idiom against each other, and
/// the number of guesses taken.
pub struct Bot {
    all_idioms: Vec<String>,
    answer_candidates_index: Vec<usize>,
    feedback_map: CodeTable,
    round: u32,
    pinyin: HandlePinyin,
    syllables: Vec<Vec<Vec<String>>>,
}

/// Each idiom has four characters.
pub open spec fn four_characters(idioms: Seq<Seq<char>>) -> bool {
    forall|i: int| 0 <= i < idioms.len() ==> (#[trigger] idioms[i]).len() == POSITIONS
}

/// Each member is below the next.
pub open spec fn increasing(indices: Seq<usize>) -> bool {
    forall|p: int, q: int| 0 <= p < q < indices.len() ==> indices[p] < indices[q]
}

/// All indices below `n`, in order.
pub open spec fn all_indices(n: nat) -> Seq<usize> {
    Seq::new(n, |q: int| q as usize)
}

/// `i` is the first index at which `guess` stands in the lexicon.
pub open spec fn is_first(lexicon: Seq<Seq<char>>, guess: Seq<char>, i: int) -> bool {
    &&& 0 <= i < lexicon.len()
    &&& lexicon[i] == guess
    &&& forall|k: int| 0 <= k < i ==> lexicon[k] != guess
}

/// Filtering keeps the order and adds nothing: what is left is what was there
/// and passes.
pub proof fn lemma_filter_increasing(indices: Seq<usize>, keep: spec_fn(usize) -> bool)
    requires
        increasing(indices),
    ensures
        increasing(indices.filter(keep)),
        indices.filter(keep).len() <= indices.len(),
        forall|x: usize|
            #![trigger indices.filter(keep).contains(x)]
            #![trigger indices.contains(x)]
            indices.filter(keep).contains(x) <==> indices.contains(x) && keep(x),
    decreases indices.len(),
{
    reveal(Seq::filter);
    if indices.len() > 0 {
        let front = indices.drop_last();
        let last = indices.last();
        lemma_filter_increasing(front, keep);
        let kept = front.filter(keep);
        let all = indices.filter(keep);
        assert forall|x: usize|
            #![trigger all.contains(x)]
            #![trigger indices.contains(x)]
            all.contains(x) <==> indices.contains(x) && keep(x) by {
            if all.contains(x) {
                let k = choose|k: int| 0 <= k < all.len() && all[k] == x;
                if k < kept.len() {
                    assert(kept[k] == x);
                    assert(kept.contains(x));
                    let m = choose|m: int| 0 <= m < front.len() && front[m] == x;
                    assert(indices[m] == x);
                } else {
                    assert(x == last);
                    assert(indices[indices.len() - 1] == x);
                }
            }
            if indices.contains(x) && keep(x) {
                let m = choose|m: int| 0 <= m < indices.len() && indices[m] == x;
                if m < front.len() {
                    assert(front[m] == x);
                    assert(front.contains(x));
                    let k = choose|k: int| 0 <= k < kept.len() && kept[k] == x;
                    assert(all[k] == x);
                } else {
                    assert(all[all.len() - 1] == x);
                }
            }
        }
        assert forall|p: int, q: int| 0 <= p < q < all.len() implies all[p] < all[q] by {
            if q < kept.len() {
                assert(all[p] == kept[p] && all[q] == kept[q]);
            } else {
                assert(all[q] == last);
                assert(all[p] == kept[p]);
                assert(kept.contains(kept[p]));
                let m = choose|m: int| 0 <= m < front.len() && front[m] == kept[p];
                assert(indices[m] < indices[indices.len() - 1]);
            }
        }
    }
}

/// Filtering indices below `n` leaves indices below `n`.
pub proof fn lemma_filter_below(indices: Seq<usize>, keep: spec_fn(usize) -> bool, n: nat)
    requires
        forall|q: int| 0 <= q < indices.len() ==> indices[q] < n,
    ensures
        forall|q: int| 0 <= q < indices.filter(keep).len() ==> indices.filter(keep)[q] < n,
    decreases indices.len(),
{
    reveal(Seq::filter);
    if indices.len() > 0 {
        let kept = indices.drop_last().filter(keep);
        lemma_filter_below(indices.drop_last(), keep, n);
        assert forall|q: int| 0 <= q < indices.filter(keep).len() implies indices.filter(keep)[q]
            < n by {
            if q < kept.len() {
                assert(indices.filter(keep)[q] == kept[q]);
            } else {
                assert(indices.filter(keep)[q] == indices.last());
            }
        }
    }
}

/// An increasing sequence of indices below `n` has at most `n` members.
pub proof fn lemma_increasing_len(indices: Seq<usize>, n: nat)
    requires
        increasing(indices),
        forall|q: int| 0 <= q < indices.len() ==> indices[q] < n,
    ensures
        indices.len() <= n,
    decreases indices.len(),
{
    if indices.len() > 0 {
        let front = indices.drop_last();
        let last = indices.last();
        assert forall|q: int| 0 <= q < front.len() implies front[q] < last by {
            assert(front[q] == indices[q]);
        }
        lemma_increasing_len(front, last as nat);
    }
}

/// The members of `candidates` whose flag is set.
fn retain_flagged(
    candidates: &Vec<usize>,
    flags: &Vec<bool>,
    Ghost(keep): Ghost<spec_fn(usize) -> bool>,
) -> (kept: Vec<usize>)
    requires
        flags.len() == candidates.len(),
        forall|q: int| 0 <= q < flags.len() ==> flags[q] == keep(#[trigger] candidates[q]),
    ensures
        kept@ == candidates@.filter(keep),
{
    let mut kept: Vec<usize> = Vec::new();
    let mut q: usize = 0;
    proof {
        reveal(Seq::filter);
    }
    while q < candidates.len()
        invariant
            q <= candidates.len(),
            flags.len() == candidates.len(),
            forall|q: int| 0 <= q < flags.len() ==> flags[q] == keep(#[trigger] candidates[q]),
            kept@ == candidates@.take(q as int).filter(keep),
        decreases candidates.len() - q,
    {
        proof {
            reveal(Seq::filter);
            let next = candidates@.take(q + 1);
            assert(next.drop_last() =~= candidates@.take(q as int));
        }
        if flags[q] {
            kept.push(candidates[q]);
        }
        q += 1;
    }
    assert(candidates@.take(candidates.len() as int) =~= candidates@);
    kept
}

impl Bot {
    /// The idioms of the lexicon, in the order of their indices.
    pub closed spec fn lexicon(&self) -> Seq<Seq<char>> {
        texts(self.all_idioms)
    }

    /// The indices of the idioms that are still possible answers.
    pub closed spec fn candidates(&self) -> Seq<usize> {
        self.answer_candidates_index@
    }

    /// The table of feedback codes: row by guess, column by answer.
    pub closed spec fn rows(&self) -> Seq<Seq<u32>> {
        table_rows(self.feedback_map)
    }

    /// The number of guesses taken.
    pub closed spec fn round_count(&self) -> nat {
        self.round as nat
    }

    /// The table of readings of the pronunciation resolver.
    pub closed spec fn readings(&self) -> Seq<(Seq<char>, Seq<char>)> {
        self.pinyin@
    }

    /// The syllables of each idiom are at hand.
    pub closed spec fn prepared(&self) -> bool {
        &&& self.syllables.len() == self.all_idioms.len()
        &&& forall|i: int|
            0 <= i < self.syllables.len() ==> features(#[trigger] self.syllables[i]) == parsed(
                self.pinyin@,
                self.all_idioms[i]@,
            )
    }

    /// The session is in order: each idiom has four characters, the table has
    /// a row and a column for each idiom, and the candidates are indices of
    /// the lexicon in increasing order.
    pub open spec fn well_formed(&self) -> bool {
        &&& fits(self.lexicon().len())
        &&& four_characters(self.lexicon())
        &&& is_square(self.rows(), self.lexicon().len())
        &&& increasing(self.candidates())
        &&& forall|q: int|
            0 <= q < self.candidates().len() ==> (#[trigger] self.candidates()[q])
                < self.lexicon().len()
        &&& self.prepared()
    }

    /// The cell for guess `i` and answer `j` holds the code of comparing the
    /// two idioms.
    pub open spec fn exact_at(&self, i: int, j: int) -> bool {
        self.rows()[i][j] == diff_code(self.readings(), self.lexicon()[i], self.lexicon()[j])
    }

    /// Every cell of the table holds the code of its two idioms.
    pub open spec fn exact(&self) -> bool {
        forall|i: int, j: int|
            0 <= i < self.lexicon().len() && 0 <= j < self.lexicon().len()
                ==> #[trigger] self.exact_at(i, j)
    }

    /// The code of `guess` against the idiom with index `j`: from the table
    /// where the guess is an idiom of the lexicon, by the row of its first
    /// index there; by comparing the two otherwise.
    pub open spec fn answer_code(&self, guess: Seq<char>, j: int) -> nat {
        if exists|i: int| is_first(self.lexicon(), guess, i) {
            self.rows()[choose|i: int| is_first(self.lexicon(), guess, i)][j] as nat
        } else {
            diff_code(self.readings(), guess, self.lexicon()[j])
        }
    }

    /// The idioms against which `guess` has the code `feedback`.
    pub open spec fn answers_with(&self, guess: Seq<char>, feedback: nat) -> spec_fn(
        usize,
    ) -> bool {
        |j: usize| self.answer_code(guess, j as int) == feedback
    }

    /// The idioms in which `hint` stands.
    pub open spec fn shows(&self, hint: Seq<char>) -> spec_fn(usize) -> bool {
        |j: usize| contains_text(self.lexicon()[j as int], hint)
    }

    /// The lexicon.
    pub fn all_idioms(&self) -> (idioms: &Vec<String>)
        ensures
            texts(*idioms) == self.lexicon(),
    {
        &self.all_idioms
    }

    /// The pronunciation resolver.
    pub fn pinyin(&self) -> (resolver: &HandlePinyin)
        ensures
            resolver@ == self.readings(),
    {
        &self.pinyin
    }

    /// The number of guesses taken.
    pub fn round(&self) -> (round: u32)
        ensures
            round == self.round_count(),
    {
        self.round
    }

    /// The number of guesses taken and the number of idioms that are still
    /// possible answers.
    pub fn status(&self) -> (status: (u32, usize))
        ensures
            status.0 == self.round_count(),
            status.1 == self.candidates().len(),
    {
        (self.round, self.answer_candidates_index.len())
    }

    /// The idioms that are still possible answers, in the order of the
    /// lexicon.
    pub fn answer_candidates(&self) -> (idioms: Vec<String>)
        requires
            self.well_formed(),
        ensures
            idioms.len() == self.candidates().len(),
            forall|q: int|
                0 <= q < idioms.len() ==> (#[trigger] idioms[q])@
                    == self.lexicon()[self.candidates()[q] as int],
    {
        let mut idioms: Vec<String> = Vec::new();
        let mut q: usize = 0;
        while q < self.answer_candidates_index.len()
            invariant
                self.well_formed(),
                q <= self.answer_candidates_index.len(),
                idioms.len() == q,
                forall|p: int|
                    0 <= p < q ==> (#[trigger] idioms[p])@
                        == self.lexicon()[self.candidates()[p] as int],
            decreases self.answer_candidates_index.len() - q,
        {
            let j = self.answer_candidates_index[q];
            idioms.push(self.all_idioms[j].clone());
            q += 1;
        }
        idioms
    }

    /// Whether the idiom with index `i` is still a possible answer.
    pub fn is_possible_answer(&self, i: usize) -> (possible: bool)
        ensures
            possible == self.candidates().contains(i),
    {
        let mut q: usize = 0;
        while q < self.answer_candidates_index.len()
            invariant
                q <= self.answer_candidates_index.len(),
                forall|p: int| 0 <= p < q ==> self.candidates()[p] != i,
            decreases self.answer_candidates_index.len() - q,
        {
            if self.answer_candidates_index[q] == i {
                return true;
            }
            q += 1;
        }
        false
    }

    /// Starts over: every idiom is a possible answer again and no guess has
    /// been taken.
    pub fn restart(&mut self)
        requires
            old(self).well_formed(),
        ensures
            final(self).well_formed(),
            final(self).candidates() == all_indices(old(self).lexicon().len()),
            final(self).candidates().len() == old(self).lexicon().len(),
            final(self).round_count() == 0,
            final(self).lexicon() == old(self).lexicon(),
            final(self).rows() == old(self).rows(),
            final(self).readings() == old(self).readings(),
    {
        let n = self.all_idioms.len();
        let mut all: Vec<usize> = Vec::new();
        let mut j: usize = 0;
        while j < n
            invariant
                j <= n,
                all.len() == j,
                forall|q: int| 0 <= q < j ==> all[q] == q,
            decreases n - j,
        {
            all.push(j);
            j += 1;
        }
        self.answer_candidates_index = all;
        self.round = 0;
    }

    /// Keeps as possible answers only the idioms in which `hint` stands.
    pub fn user_hint(&mut self, hint: String)
        requires
            old(self).well_formed(),
        ensures
            final(self).well_formed(),
            final(self).candidates() == old(self).candidates().filter(old(self).shows(hint@)),
            final(self).candidates().len() <= old(self).candidates().len(),
            forall|j: usize|
                final(self).candidates().contains(j) ==> old(self).candidates().contains(j),
            final(self).round_count() == old(self).round_count(),
            final(self).lexicon() == old(self).lexicon(),
            final(self).rows() == old(self).rows(),
            final(self).readings() == old(self).readings(),
    {
        let ghost keep = self.shows(hint@);
        let mut flags: Vec<bool> = Vec::new();
        let mut q: usize = 0;
        while q < self.answer_candidates_index.len()
            invariant
                self.well_formed(),
                keep == self.shows(hint@),
                q <= self.answer_candidates_index.len(),
                flags.len() == q,
                forall|p: int| 0 <= p < q ==> flags[p] == keep(#[trigger] self.candidates()[p]),
            decreases self.answer_candidates_index.len() - q,
        {
            let j = self.answer_candidates_index[q];
            flags.push(contains(self.all_idioms[j].as_str(), hint.as_str()));
            q += 1;
        }
        let kept = retain_flagged(&self.answer_candidates_index, &flags, Ghost(keep));
        proof {
            lemma_filter_increasing(self.candidates(), keep);
            lemma_filter_below(self.candidates(), keep, self.lexicon().len());
        }
        self.answer_candidates_index = kept;
    }
}

impl Bot {
    /// Computes the table anew: every cell gets the code of comparing the
    /// idiom of its row as the guess with the idiom of its column as the
    /// answer.
    pub fn build_feedback_map(&mut self)
        requires
            old(self).well_formed(),
        ensures
            final(self).well_formed(),
            final(self).exact(),
            final(self).lexicon() == old(self).lexicon(),
            final(self).candidates() == old(self).candidates(),
            final(self).round_count() == old(self).round_count(),
            final(self).readings() == old(self).readings(),
    {
        let n = self.all_idioms.len();
        let mut i: usize = 0;
        while i < n
            invariant
                i <= n,
                n == self.lexicon().len(),
                self.well_formed(),
                self.lexicon() == old(self).lexicon(),
                self.candidates() == old(self).candidates(),
                self.round_count() == old(self).round_count(),
                self.readings() == old(self).readings(),
                forall|a: int, b: int| 0 <= a < i && 0 <= b < n ==> #[trigger] self.exact_at(a, b),
            decreases n - i,
        {
            let mut j: usize = 0;
            while j < n
                invariant
                    i < n,
                    j <= n,
                    n == self.lexicon().len(),
                    self.well_formed(),
                    self.lexicon() == old(self).lexicon(),
                    self.candidates() == old(self).candidates(),
                    self.round_count() == old(self).round_count(),
                    self.readings() == old(self).readings(),
                    forall|a: int, b: int|
                        (0 <= a < i && 0 <= b < n) || (a == i && 0 <= b < j)
                            ==> #[trigger] self.exact_at(a, b),
                decreases n - j,
            {
                proof {
                    lemma_parsed_shape(self.readings(), self.lexicon()[i as int]);
                    lemma_parsed_shape(self.readings(), self.lexicon()[j as int]);
                }
                let value = feedback_code(&self.syllables[i], &self.syllables[j]);
                let ghost before = *self;
                table_set(&mut self.feedback_map, i, j, value);
                proof {
                    assert forall|a: int, b: int|
                        (0 <= a < i && 0 <= b < n) || (a == i && 0 <= b < j + 1)
                        implies #[trigger] self.exact_at(a, b) by {
                        assert(before.rows()[a].len() == n);
                        if a != i || b != j {
                            assert(before.exact_at(a, b));
                            assert(self.rows()[a][b] == before.rows()[a][b]);
                        }
                    }
                }
                j += 1;
            }
            i += 1;
        }
    }
}

/// The place of the cell in row `i` and column `j` when the rows of a square
/// table of side `n` are written one after another.
pub open spec fn cell_index(n: int, i: int, j: int) -> int {
    i * n + j
}

/// A cell of a square table has its place among the `n * n` cells.
pub proof fn lemma_cell_index(n: int, i: int, j: int)
    requires
        0 <= i < n,
        0 <= j < n,
    ensures
        0 <= cell_index(n, i, j) < n * n,
        i * n <= (n - 1) * n,
{
    assert(0 <= i * n + j < n * n && i * n <= (n - 1) * n) by (nonlinear_arith)
        requires
            0 <= i < n,
            0 <= j < n,
    ;
}

impl Bot {
    /// A session on the given lexicon with 0 in every cell of the table.
    fn unbuilt(all_idioms: Vec<String>, pinyin: HandlePinyin) -> (bot: Bot)
        requires
            fits(all_idioms.len() as nat),
            four_characters(texts(all_idioms)),
        ensures
            bot.well_formed(),
            bot.lexicon() == texts(all_idioms),
            bot.readings() == pinyin@,
            bot.candidates() == all_indices(all_idioms.len() as nat),
            bot.round_count() == 0,
    {
        let n = all_idioms.len();
        let mut syllables: Vec<Vec<Vec<String>>> = Vec::new();
        let mut candidates: Vec<usize> = Vec::new();
        let mut i: usize = 0;
        while i < n
            invariant
                i <= n,
                n == all_idioms.len(),
                syllables.len() == i,
                candidates.len() == i,
                forall|q: int| 0 <= q < i ==> candidates[q] == q,
                forall|q: int|
                    0 <= q < i ==> features(#[trigger] syllables[q]) == parsed(
                        pinyin@,
                        all_idioms[q]@,
                    ),
            decreases n - i,
        {
            syllables.push(pinyin.parse(all_idioms[i].clone()));
            candidates.push(i);
            i += 1;
        }
        let feedback_map = table_zeros(n);
        let bot = Bot {
            all_idioms,
            answer_candidates_index: candidates,
            feedback_map,
            round: 0,
            pinyin,
            syllables,
        };
        bot
    }

    /// A session on the given lexicon of idioms of four characters each, with
    /// every idiom a possible answer, no guess taken, and the table computed.
    pub fn new(all_idioms: Vec<String>, pinyin: HandlePinyin) -> (bot: Bot)
        requires
            fits(all_idioms.len() as nat),
            four_characters(texts(all_idioms)),
        ensures
            bot.well_formed(),
            bot.lexicon() == texts(all_idioms),
            bot.readings() == pinyin@,
            bot.candidates() == all_indices(all_idioms.len() as nat),
            bot.round_count() == 0,
            bot.exact(),
    {
        let mut bot = Bot::unbuilt(all_idioms, pinyin);
        bot.build_feedback_map();
        bot
    }

    /// A session on the given lexicon of idioms of four characters each, with
    /// every idiom a possible answer, no guess taken, and the table taken
    /// from `cells`, the rows one after another. There is no session where
    /// `cells` has another length than the table has cells.
    pub fn with_feedback_map(
        all_idioms: Vec<String>,
        pinyin: HandlePinyin,
        cells: &Vec<u32>,
    ) -> (made: Option<Bot>)
        requires
            fits(all_idioms.len() as nat),
            four_characters(texts(all_idioms)),
        ensures
            made.is_some() == (cells.len() == all_idioms.len() * all_idioms.len()),
            made.is_some() ==> {
                let bot = made.unwrap();
                &&& bot.well_formed()
                &&& bot.lexicon() == texts(all_idioms)
                &&& bot.readings() == pinyin@
                &&& bot.candidates() == all_indices(all_idioms.len() as nat)
                &&& bot.round_count() == 0
                &&& forall|i: int, j: int|
                    0 <= i < all_idioms.len() && 0 <= j < all_idioms.len()
                        ==> #[trigger] bot.rows()[i][j] == cells[cell_index(
                        all_idioms.len() as int,
                        i,
                        j,
                    )]
            },
    {
        let n = all_idioms.len();
        if cells.len() != n * n {
            return None;
        }
        let mut bot = Bot::unbuilt(all_idioms, pinyin);
        let loaded = bot.load_feedback_map(cells);
        Some(bot)
    }

    /// The code in the table for the guess with index `i` against the answer
    /// with index `j`.
    pub fn feedback_at(&self, i: usize, j: usize) -> (cell: u32)
        requires
            self.well_formed(),
            i < self.lexicon().len(),
            j < self.lexicon().len(),
        ensures
            cell == self.rows()[i as int][j as int],
    {
        table_get(&self.feedback_map, i, j)
    }

    /// Takes the cells of the table from `cells`, the rows one after another;
    /// a vector of another length than the table has cells is refused and the
    /// table stays.
    pub fn load_feedback_map(&mut self, cells: &Vec<u32>) -> (loaded: bool)
        requires
            old(self).well_formed(),
        ensures
            final(self).well_formed(),
            final(self).lexicon() == old(self).lexicon(),
            final(self).candidates() == old(self).candidates(),
            final(self).round_count() == old(self).round_count(),
            final(self).readings() == old(self).readings(),
            loaded == (cells.len() == old(self).lexicon().len() * old(self).lexicon().len()),
            !loaded ==> final(self).rows() == old(self).rows(),
            loaded ==> forall|i: int, j: int|
                0 <= i < old(self).lexicon().len() && 0 <= j < old(self).lexicon().len()
                    ==> #[trigger] final(self).rows()[i][j] == cells[cell_index(
                    old(self).lexicon().len() as int,
                    i,
                    j,
                )],
    {
        let n = self.all_idioms.len();
        if cells.len() != n * n {
            return false;
        }
        let ghost before = self.rows();
        let mut i: usize = 0;
        while i < n
            invariant
                i <= n,
                n == self.lexicon().len(),
                cells.len() == n * n,
                self.well_formed(),
                self.lexicon() == old(self).lexicon(),
                self.candidates() == old(self).candidates(),
                self.round_count() == old(self).round_count(),
                self.readings() == old(self).readings(),
                forall|a: int, b: int|
                    0 <= a < n && 0 <= b < n ==> #[trigger] self.rows()[a][b] == if a < i {
                        cells[cell_index(n as int, a, b)]
                    } else {
                        before[a][b]
                    },
            decreases n - i,
        {
            let mut j: usize = 0;
            while j < n
                invariant
                    i < n,
                    j <= n,
                    n == self.lexicon().len(),
                    cells.len() == n * n,
                    self.well_formed(),
                    self.lexicon() == old(self).lexicon(),
                    self.candidates() == old(self).candidates(),
                    self.round_count() == old(self).round_count(),
                    self.readings() == old(self).readings(),
                    forall|a: int, b: int|
                        0 <= a < n && 0 <= b < n ==> #[trigger] self.rows()[a][b] == if a < i || (a
                            == i && b < j) {
                            cells[cell_index(n as int, a, b)]
                        } else {
                            before[a][b]
                        },
                decreases n - j,
            {
                proof {
                    lemma_cell_index(n as int, i as int, j as int);
                }
                let value = cells[i * n + j];
                table_set(&mut self.feedback_map, i, j, value);
                j += 1;
            }
            i += 1;
        }
        true
    }

    /// The cells of the table, the rows one after another.
    pub fn feedback_cells(&self) -> (cells: Vec<u32>)
        requires
            self.well_formed(),
        ensures
            cells.len() == self.lexicon().len() * self.lexicon().len(),
            forall|i: int, j: int|
                0 <= i < self.lexicon().len() && 0 <= j < self.lexicon().len() ==> cells[cell_index(
                    self.lexicon().len() as int,
                    i,
                    j,
                )] == #[trigger] self.rows()[i][j],
    {
        let n = self.all_idioms.len();
        let mut cells: Vec<u32> = Vec::new();
        let mut i: usize = 0;
        while i < n
            invariant
                i <= n,
                n == self.lexicon().len(),
                self.well_formed(),
                cells.len() == i * n,
                forall|a: int, b: int|
                    0 <= a < i && 0 <= b < n ==> cells[cell_index(n as int, a, b)]
                        == #[trigger] self.rows()[a][b],
            decreases n - i,
        {
            let mut j: usize = 0;
            while j < n
                invariant
                    i < n,
                    j <= n,
                    n == self.lexicon().len(),
                    self.well_formed(),
                    cells.len() == i * n + j,
                    forall|a: int, b: int|
                        (0 <= a < i && 0 <= b < n) || (a == i && 0 <= b < j) ==> cells[cell_index(
                            n as int,
                            a,
                            b,
                        )] == #[trigger] self.rows()[a][b],
                decreases n - j,
            {
                let ghost so_far = cells@;
                cells.push(table_get(&self.feedback_map, i, j));
                proof {
                    assert forall|a: int, b: int|
                        (0 <= a < i && 0 <= b < n) || (a == i && 0 <= b < j + 1)
                        implies cells[cell_index(n as int, a, b)]
                        == #[trigger] self.rows()[a][b] by {
                        if a < i {
                            assert(a * n + b < i * n) by (nonlinear_arith)
                                requires
                                    0 <= a < i,
                                    0 <= b < n,
                            ;
                        }
                        if a != i || b != j {
                            assert(cells[cell_index(n as int, a, b)] == so_far[cell_index(
                                n as int,
                                a,
                                b,
                            )]);
                        }
                    }
                }
                j += 1;
            }
            assert((i + 1) * n == i * n + n) by (nonlinear_arith);
            i += 1;
        }
        cells
    }
}

/// The lexicon holds a guess at one first index only.
pub proof fn lemma_first_unique(lexicon: Seq<Seq<char>>, guess: Seq<char>, i: int)
    requires
        is_first(lexicon, guess, i),
    ensures
        (choose|k: int| is_first(lexicon, guess, k)) == i,
{
}

/// The side of a table that can be held fits in `u32`, and the number of its
/// cells in `usize`.
pub proof fn lemma_side_bound(n: nat)
    requires
        fits(n),
    ensures
        n <= u32::MAX,
        n * n <= usize::MAX,
{
    assert(n <= 0xffff_ffff) by (nonlinear_arith)
        requires
            n * n <= 0x7fff_ffff_ffff_ffff,
    ;
}

impl Bot {
    /// The session with other candidates and another number of guesses.
    pub open spec fn unchanged_but_candidates(&self, before: &Bot) -> bool {
        &&& self.lexicon() == before.lexicon()
        &&& self.rows() == before.rows()
        &&& self.readings() == before.readings()
    }

    /// The first index of `guess` in the lexicon.
    fn position(&self, guess: &String) -> (found: Option<usize>)
        ensures
            match found {
                Some(i) => is_first(self.lexicon(), guess@, i as int),
                None => forall|k: int|
                    0 <= k < self.lexicon().len() ==> self.lexicon()[k] != guess@,
            },
    {
        let mut i: usize = 0;
        while i < self.all_idioms.len()
            invariant
                i <= self.all_idioms.len(),
                forall|k: int| 0 <= k < i ==> self.lexicon()[k] != guess@,
            decreases self.all_idioms.len() - i,
        {
            if self.all_idioms[i] == *guess {
                return Some(i);
            }
            i += 1;
        }
        None
    }

    /// Takes a guess of four characters with the feedback that the game gave
    /// for it, a text of up to sixteen characters `0`, `1`, `2` or space:
    /// keeps as possible answers only the idioms against which the guess has
    /// that feedback, and counts the guess. A guess or a feedback that is not
    /// of this form is refused, and the session stays as it was.
    pub fn user_guess(&mut self, guess: String, feedback_string: String) -> (outcome: Result<
        (),
        GuessError,
    >)
        requires
            old(self).well_formed(),
            old(self).round_count() < u32::MAX,
        ensures
            final(self).well_formed(),
            final(self).unchanged_but_candidates(old(self)),
            final(self).candidates().len() <= old(self).candidates().len(),
            forall|j: usize|
                final(self).candidates().contains(j) ==> old(self).candidates().contains(j),
            match outcome {
                Ok(_) => {
                    &&& guess@.len() == POSITIONS
                    &&& feedback_string@.len() <= FIELDS
                    &&& well_marked(feedback_string@)
                    &&& final(self).round_count() == old(self).round_count() + 1
                    &&& final(self).candidates() == old(self).candidates().filter(
                        old(self).answers_with(guess@, feedback_value(feedback_string@)),
                    )
                },
                Err(refused) => {
                    &&& final(self).round_count() == old(self).round_count()
                    &&& final(self).candidates() == old(self).candidates()
                    &&& refused == if guess@.len() != POSITIONS {
                        GuessError::GuessLength
                    } else if feedback_string@.len() > FIELDS {
                        GuessError::FeedbackLength
                    } else {
                        GuessError::FeedbackDigit
                    }
                    &&& guess@.len() != POSITIONS || feedback_string@.len() > FIELDS
                        || !well_marked(feedback_string@)
                },
            },
    {
        if guess.as_str().unicode_len() != POSITIONS {
            return Err(GuessError::GuessLength);
        }
        let feedback = match parse_feedback(feedback_string.as_str()) {
            Ok(value) => value,
            Err(FeedbackError::TooLong) => {
                return Err(GuessError::FeedbackLength);
            },
            Err(FeedbackError::BadDigit) => {
                return Err(GuessError::FeedbackDigit);
            },
        };
        self.narrow_by_guess(&guess, feedback);
        Ok(())
    }

    /// Takes a guess of four characters with the feedback code that the game
    /// gave for it: keeps as possible answers only the idioms against which
    /// the guess has that code, and counts the guess.
    pub fn narrow_by_guess(&mut self, guess: &String, feedback: u32)
        requires
            old(self).well_formed(),
            old(self).round_count() < u32::MAX,
            guess@.len() == POSITIONS,
        ensures
            final(self).well_formed(),
            final(self).unchanged_but_candidates(old(self)),
            final(self).round_count() == old(self).round_count() + 1,
            final(self).candidates() == old(self).candidates().filter(
                old(self).answers_with(guess@, feedback as nat),
            ),
            final(self).candidates().len() <= old(self).candidates().len(),
            forall|j: usize|
                final(self).candidates().contains(j) ==> old(self).candidates().contains(j),
    {
        let ghost keep = self.answers_with(guess@, feedback as nat);
        let found = self.position(guess);
        let mut flags: Vec<bool> = Vec::new();
        let count = self.answer_candidates_index.len();
        match found {
            Some(i) => {
                proof {
                    lemma_first_unique(self.lexicon(), guess@, i as int);
                }
                let mut q: usize = 0;
                while q < count
                    invariant
                        self.well_formed(),
                        count == self.candidates().len(),
                        q <= count,
                        flags.len() == q,
                        i < self.lexicon().len(),
                        is_first(self.lexicon(), guess@, i as int),
                        (choose|k: int| is_first(self.lexicon(), guess@, k)) == i,
                        keep == self.answers_with(guess@, feedback as nat),
                        forall|p: int|
                            0 <= p < q ==> flags[p] == keep(#[trigger] self.candidates()[p]),
                    decreases count - q,
                {
                    let j = self.answer_candidates_index[q];
                    let code = table_get(&self.feedback_map, i, j);
                    flags.push(code == feedback);
                    q += 1;
                }
            },
            None => {
                let parsed_guess = self.pinyin.parse(guess.clone());
                let mut q: usize = 0;
                while q < count
                    invariant
                        self.well_formed(),
                        count == self.candidates().len(),
                        q <= count,
                        flags.len() == q,
                        guess@.len() == POSITIONS,
                        features(parsed_guess) == parsed(self.readings(), guess@),
                        !exists|i: int| is_first(self.lexicon(), guess@, i),
                        keep == self.answers_with(guess@, feedback as nat),
                        forall|p: int|
                            0 <= p < q ==> flags[p] == keep(#[trigger] self.candidates()[p]),
                    decreases count - q,
                {
                    let j = self.answer_candidates_index[q];
                    proof {
                        lemma_parsed_shape(self.readings(), guess@);
                        lemma_parsed_shape(self.readings(), self.lexicon()[j as int]);
                    }
                    let code = feedback_code(&parsed_guess, &self.syllables[j]);
                    flags.push(code == feedback);
                    q += 1;
                }
            },
        }
        let kept = retain_flagged(&self.answer_candidates_index, &flags, Ghost(keep));
        proof {
            lemma_filter_increasing(self.candidates(), keep);
            lemma_filter_below(self.candidates(), keep, self.lexicon().len());
        }
        self.answer_candidates_index = kept;
        self.round = self.round + 1;
    }

    /// The codes of the guess with index `i` against each idiom that is still
    /// a possible answer, in the order of the candidates.
    pub open spec fn guess_codes(&self, i: int) -> Seq<u32> {
        Seq::new(
            self.candidates().len(),
            |q: int| self.rows()[i][self.candidates()[q] as int],
        )
    }

    /// How the guess with index `i` would split the possible answers: each
    /// feedback code that it has against one of them, with the number of
    /// answers that give that code. The codes come in the order in which the
    /// candidates first give them.
    pub fn feedback_counts(&self, i: usize) -> (counts: Vec<(u32, u32)>)
        requires
            self.well_formed(),
            i < self.lexicon().len(),
        ensures
            counts.len() == tallied(self.guess_codes(i as int)).len(),
            forall|m: int|
                0 <= m < counts.len() ==> (#[trigger] counts[m]).0 == tallied(
                    self.guess_codes(i as int),
                )[m].0 && counts[m].1 == tallied(self.guess_codes(i as int))[m].1,
    {
        let count = self.answer_candidates_index.len();
        let mut codes: Vec<u32> = Vec::new();
        let mut q: usize = 0;
        while q < count
            invariant
                self.well_formed(),
                i < self.lexicon().len(),
                count == self.candidates().len(),
                q <= count,
                codes.len() == q,
                forall|p: int| 0 <= p < q ==> codes[p] == self.guess_codes(i as int)[p],
            decreases count - q,
        {
            let j = self.answer_candidates_index[q];
            codes.push(table_get(&self.feedback_map, i, j));
            q += 1;
        }
        proof {
            assert(codes@ =~= self.guess_codes(i as int));
            lemma_increasing_len(self.candidates(), self.lexicon().len());
            lemma_side_bound(self.lexicon().len());
        }
        tally(&codes)
    }

    /// The guesses to recommend while an answer is still possible, given a
    /// score for each idiom of the lexicon: the `TOP` idioms with the best
    /// scores, or all where the lexicon has fewer, each with its score, from
    /// the best down and between equal scores in the order of the lexicon.
    /// No idiom that is left out has a better score than one that is
    /// recommended.
    pub fn bot_candidates(&self, scores: &Vec<u64>) -> (picks: Vec<(String, u64)>)
        requires
            self.well_formed(),
            self.candidates().len() > 0,
            scores.len() == self.lexicon().len(),
        ensures
            picks.len() == ranking_len(scores@, TOP as nat),
            forall|k: int|
                0 <= k < picks.len() ==> (#[trigger] picks[k]).0@ == self.lexicon()[ranking(
                    scores@,
                    TOP as nat,
                )[k] as int] && picks[k].1 == scores[ranking(scores@, TOP as nat)[k] as int],
            forall|a: int, b: int|
                0 <= a < b < picks.len() ==> (#[trigger] picks[a]).1 >= (#[trigger] picks[b]).1,
            forall|k: int, i: usize|
                #![trigger picks[k], ranking(scores@, TOP as nat).contains(i)]
                0 <= k < picks.len() && i < scores.len() && !ranking(scores@, TOP as nat).contains(
                    i,
                ) ==> scores[i as int] <= picks[k].1,
    {
        let best = top_ranked(scores, TOP);
        let mut picks: Vec<(String, u64)> = Vec::new();
        let mut k: usize = 0;
        while k < best.len()
            invariant
                k <= best.len(),
                picks.len() == k,
                scores.len() == self.lexicon().len(),
                forall|a: int| 0 <= a < best.len() ==> (#[trigger] best[a]) < scores.len(),
                forall|a: int|
                    0 <= a < k ==> (#[trigger] picks[a]).0@ == self.lexicon()[best[a] as int]
                        && picks[a].1 == scores[best[a] as int],
            decreases best.len() - k,
        {
            let i = best[k];
            picks.push((self.all_idioms[i].clone(), scores[i]));
            k += 1;
        }
        picks
    }
}

/// Narrowing by a guess with its feedback never adds a possible answer: what
/// is left are candidates from before, in their order, and no more of them
/// than before.
pub proof fn lemma_guess_narrows(bot: &Bot, guess: Seq<char>, feedback: nat)
    requires
        bot.well_formed(),
    ensures
        bot.candidates().filter(bot.answers_with(guess, feedback)).len()
            <= bot.candidates().len(),
        increasing(bot.candidates().filter(bot.answers_with(guess, feedback))),
        forall|j: usize|
            bot.candidates().filter(bot.answers_with(guess, feedback)).contains(j)
                ==> bot.candidates().contains(j),
{
    lemma_filter_increasing(bot.candidates(), bot.answers_with(guess, feedback));
}

/// Narrowing by a revealed character never adds a possible answer: what is
/// left are candidates from before, in their order, and no more of them than
/// before.
pub proof fn lemma_hint_narrows(bot: &Bot, hint: Seq<char>)
    requires
        bot.well_formed(),
    ensures
        bot.candidates().filter(bot.shows(hint)).len() <= bot.candidates().len(),
        increasing(bot.candidates().filter(bot.shows(hint))),
        forall|j: usize|
            bot.candidates().filter(bot.shows(hint)).contains(j) ==> bot.candidates().contains(j),
{
    lemma_filter_increasing(bot.candidates(), bot.shows(hint));
}

/// With a table that holds the code of each pair of idioms, a guess narrows
/// the candidates by the code of comparing it with each of them, whether the
/// guess is an idiom of the lexicon or not.
pub proof fn lemma_exact_table(bot: &Bot, guess: Seq<char>, j: int)
    requires
        bot.well_formed(),
        bot.exact(),
        0 <= j < bot.lexicon().len(),
    ensures
        bot.answer_code(guess, j) == diff_code(bot.readings(), guess, bot.lexicon()[j]),
{
    if exists|i: int| is_first(bot.lexicon(), guess, i) {
        let i = choose|i: int| is_first(bot.lexicon(), guess, i);
        assert(bot.exact_at(i, j));
    }
}

} // verus!
