//! The prime table: one bit per candidate in `[0, n]`, packed into 32-bit
//! words, set exactly where the candidate is prime.

use vstd::prelude::*;
use vstd::arithmetic::div_mod::lemma_fundamental_div_mod;
use crate::bits::{lemma_cleared_word, lemma_full_word, lemma_set_word, lemma_split_index, word_bit};
use crate::primality::{
    divides, is_prime_number, lemma_next_multiple, lemma_unstruck_past_root, lemma_unstruck_step,
    lemma_unstruck_step_composite, no_divisor_below, unstruck,
};
use crate::sqrt::{integer_sqrt, is_integer_sqrt, lemma_integer_sqrt_bound};

verus! {

/// The filled square that a drawn table shows for a prime.
pub const PRIME_GLYPH: char = '\u{25A0}';

/// The empty square that a drawn table shows for any other candidate.
pub const OTHER_GLYPH: char = '\u{25A1}';

/// The glyph that a drawn table shows for a candidate with the given flag.
pub open spec fn glyph(prime: bool) -> char {
    if prime {
        PRIME_GLYPH
    } else {
        OTHER_GLYPH
    }
}

/// The flags of a finished table with bound `n`: one per candidate in
/// `[0, n]`, set exactly at the primes.
pub open spec fn prime_flags(n: nat) -> Seq<bool> {
    Seq::new(n + 1, |k: int| is_prime_number(k))
}

/// The flags of a table with bound `n` during the sieve, once every candidate
/// below `p` has been walked.
pub open spec fn sieve_flags(n: nat, p: int) -> Seq<bool> {
    Seq::new(n + 1, |k: int| unstruck(k, p))
}

/// A table that answers, for every candidate up to its bound, whether the
/// candidate is prime.
pub struct PrimeTable {
    n: usize,
    primes: Vec<u32>,
}

impl View for PrimeTable {
    type V = Seq<bool>;

    /// One flag per candidate in `[0, n]`: the candidate's bit.
    closed spec fn view(&self) -> Seq<bool> {
        Seq::new((self.n + 1) as nat, |k: int| word_bit(self.primes@[k / 32], (k % 32) as u32))
    }
}

impl PrimeTable {
    /// The largest candidate that the table covers.
    pub closed spec fn bound(&self) -> nat {
        self.n as nat
    }

    /// The storage covers every candidate: it holds as many words as the
    /// `n + 1` bits of the candidates in `[0, n]` take, the last one padded.
    pub closed spec fn wf(&self) -> bool {
        self.primes@.len() == self.n / 32 + 1
    }

    /// Every bit that the words hold, 32 to a word: the flags of the
    /// candidates in `[0, n]` first, then the padding of the last word.
    pub closed spec fn storage(&self) -> Seq<bool> {
        Seq::new(
            (32 * self.primes@.len()) as nat,
            |i: int| word_bit(self.primes@[i / 32], (i % 32) as u32),
        )
    }

    /// The flags are the leading bits of the storage, which holds as many
    /// whole words as the candidates need.
    pub proof fn lemma_flags_lead_storage(&self)
        requires
            self.wf(),
        ensures
            self.storage().len() == 32 * (self.bound() / 32 + 1),
            self.bound() < self.storage().len(),
            self@ == self.storage().subrange(0, (self.bound() + 1) as int),
    {
    }

    /// The sieve has run: the flag of each candidate says whether it is prime.
    pub open spec fn sieved(&self) -> bool {
        self@ == prime_flags(self.bound())
    }

    /// A table has one flag for each candidate in `[0, n]`.
    pub proof fn lemma_one_flag_per_candidate(&self)
        ensures
            self@.len() == self.bound() + 1,
    {
    }

    /// Builds the table of the primes in `[0, n]`: every bit starts set, 0 and
    /// 1 are cleared, and the sieve clears the composites. The padding past
    /// the bound stays as it was made: set, but for bit 1 where the bound is
    /// 0.
    pub fn new(n: usize) -> (table: PrimeTable)
        ensures
            table.wf(),
            table.bound() == n,
            table.sieved(),
            table.storage() == Seq::new(
                (32 * (n / 32 + 1)) as nat,
                |i: int| 2 <= i && (i <= n ==> is_prime_number(i)),
            ),
    {
        let primes: Vec<u32> = vec![0xFFFF_FFFFu32; n / 32 + 1];
        let mut res = PrimeTable { n, primes };
        proof {
            assert forall|i: int| 0 <= i < res.storage().len() implies res.storage()[i] by {
                lemma_full_word((i % 32) as u32);
            }
            assert forall|k: int| 0 <= k <= n implies res@[k] by {
                assert(res@[k] == res.storage()[k]);
            }
        }
        res.set_trivial_non_primes();
        assert(res@ == sieve_flags(n as nat, 2));
        let ghost cleared = res.storage();
        res.calculate_primes();
        proof {
            assert forall|i: int| 0 <= i < res.storage().len() implies #[trigger] res.storage()[i]
                == (2 <= i && (i <= n ==> is_prime_number(i))) by {
                if i <= n {
                    assert(res.storage()[i] == res@[i]);
                } else {
                    assert(res.storage()[i] == cleared[i]);
                }
            }
            assert(res.storage() =~= Seq::new(
                (32 * (n / 32 + 1)) as nat,
                |i: int| 2 <= i && (i <= n ==> is_prime_number(i)),
            ));
        }
        res
    }

    /// Clears the bits of 0 and 1, which are not prime. Bit 1 is cleared
    /// also where the bound is 0 and the bit is padding.
    fn set_trivial_non_primes(&mut self)
        requires
            old(self).wf(),
        ensures
            final(self).wf(),
            final(self).bound() == old(self).bound(),
            final(self).storage() == old(self).storage().update(0, false).update(1, false),
            final(self)@ == Seq::new(old(self)@.len(), |k: int| 2 <= k && old(self)@[k]),
    {
        self.turn_off(0);
        self.turn_off(1);
    }

    /// Runs the sieve: walks the candidates from 2 up to one past the square
    /// root of the bound, never past the bound itself, and strikes the proper
    /// multiples of each one whose bit is set.
    ///
    /// On any table this only clears bits, clears none of a candidate without
    /// a proper divisor, and leaves the padding alone. On a table in which
    /// every candidate from 2 on is still standing it leaves exactly the
    /// primes; a table that it has finished it leaves as it is.
    fn calculate_primes(&mut self)
        requires
            old(self).wf(),
        ensures
            final(self).wf(),
            final(self).bound() == old(self).bound(),
            final(self).storage().len() == old(self).storage().len(),
            forall|i: int|
                old(self).bound() < i < old(self).storage().len() ==> #[trigger] final(self).storage()[i] == old(self).storage()[i],
            forall|k: int|
                0 <= k <= old(self).bound() ==> (#[trigger] final(self)@[k] ==> old(self)@[k]),
            forall|k: int|
                0 <= k <= old(self).bound() && old(self)@[k] && no_divisor_below(k, k)
                    ==> #[trigger] final(self)@[k],
            old(self)@ == sieve_flags(old(self).bound(), 2) ==> final(self).sieved(),
            old(self).sieved() ==> final(self).storage() == old(self).storage() && final(self)@
                == old(self)@,
    {
        let n: usize = self.n;
        let root: usize = integer_sqrt(n);
        proof {
            lemma_integer_sqrt_bound(n as int, root as int);
        }
        let m: usize = root + 1;
        let mut p: usize = 2;
        while p <= m && p <= n
            invariant
                self.wf(),
                self.n == n,
                old(self).n == n,
                is_integer_sqrt(n as int, root as int),
                m == root + 1,
                2 <= p <= m + 1,
                self.storage().len() == old(self).storage().len(),
                forall|i: int|
                    n < i < old(self).storage().len() ==> #[trigger] self.storage()[i] == old(self).storage()[i],
                forall|k: int| 0 <= k <= n ==> (#[trigger] self@[k] ==> old(self)@[k]),
                forall|k: int|
                    0 <= k <= n && old(self)@[k] && no_divisor_below(k, k) ==> #[trigger] self@[k],
                old(self)@ == sieve_flags(n as nat, 2) ==> self@ == sieve_flags(n as nat, p as int),
            decreases m + 1 - p,
        {
            proof {
                lemma_integer_sqrt_bound(n as int, root as int);
            }
            let ghost before = self@;
            if self.is_prime(p) {
                self.strike_multiples(p);
                proof {
                    assert forall|k: int|
                        0 <= k <= n && old(self)@[k] && no_divisor_below(k, k) implies self@[k] by {
                        assert(before[k]);
                        if p < k {
                            assert(!divides(p as int, k));
                        }
                    }
                    if old(self)@ == sieve_flags(n as nat, 2) {
                        assert forall|k: int| 0 <= k <= n implies self@[k] == unstruck(
                            k,
                            p + 1,
                        ) by {
                            lemma_unstruck_step(k, p as int);
                        }
                    }
                }
            } else {
                proof {
                    if old(self)@ == sieve_flags(n as nat, 2) {
                        assert forall|k: int| 0 <= k <= n implies self@[k] == unstruck(
                            k,
                            p + 1,
                        ) by {
                            lemma_unstruck_step_composite(k, p as int);
                        }
                    }
                }
            }
            p += 1;
        }
        proof {
            if old(self)@ == sieve_flags(n as nat, 2) {
                assert forall|k: int| 0 <= k <= n implies unstruck(k, p as int)
                    == is_prime_number(k) by {
                    if p <= n {
                        assert(n < p * p) by (nonlinear_arith)
                            requires
                                n < (root + 1) * (root + 1),
                                p >= root + 2,
                        ;
                        lemma_unstruck_past_root(k, p as int);
                    }
                }
                assert(self@ =~= prime_flags(n as nat));
            }
            if old(self).sieved() {
                assert forall|i: int| 0 <= i < self.storage().len() implies self.storage()[i] == old(self).storage()[i] by {
                    if i <= n {
                        assert(self.storage()[i] == self@[i]);
                        assert(old(self).storage()[i] == old(self)@[i]);
                    }
                }
                assert(self.storage() =~= old(self).storage());
                assert(self@ =~= old(self)@);
            }
        }
    }

    /// Clears the bit of every proper multiple of `p` in the table: `2 * p`,
    /// `3 * p` and so on up to the bound. Every other bit stays as it is.
    fn strike_multiples(&mut self, p: usize)
        requires
            old(self).wf(),
            1 <= p <= old(self).bound(),
        ensures
            final(self).wf(),
            final(self).bound() == old(self).bound(),
            final(self).storage() == Seq::new(
                old(self).storage().len(),
                |k: int|
                    old(self).storage()[k] && !(p < k <= old(self).bound() && divides(
                        p as int,
                        k,
                    )),
            ),
            final(self)@ == Seq::new(
                old(self)@.len(),
                |k: int| old(self)@[k] && !(p < k && divides(p as int, k)),
            ),
    {
        let n: usize = self.n;
        let mut i: usize = p;
        proof {
            lemma_next_multiple(p as int, 0, 0);
        }
        while n - i >= p
            invariant
                self.wf(),
                self.n == n,
                n == old(self).n,
                1 <= p <= i <= n,
                divides(p as int, i as int),
                self.storage() == Seq::new(
                    old(self).storage().len(),
                    |k: int| old(self).storage()[k] && !(p < k <= i && divides(p as int, k)),
                ),
                self@ == Seq::new(
                    old(self)@.len(),
                    |k: int| old(self)@[k] && !(p < k <= i && divides(p as int, k)),
                ),
            decreases n - i,
        {
            proof {
                assert forall|k: int| i < k < i + p implies !divides(p as int, k) by {
                    lemma_next_multiple(p as int, i as int, k);
                }
                lemma_next_multiple(p as int, i as int, 0);
            }
            i += p;
            self.turn_off(i);
        }
        proof {
            assert forall|k: int| i < k <= n implies !divides(p as int, k) by {
                lemma_next_multiple(p as int, i as int, k);
            }
        }
    }

    /// Clears bit `k` of the storage, which is bit `k mod 32` of word
    /// `k div 32`, and no other.
    fn turn_off(&mut self, k: usize)
        requires
            old(self).wf(),
            k < old(self).storage().len(),
        ensures
            final(self).wf(),
            final(self).bound() == old(self).bound(),
            final(self).storage() == old(self).storage().update(k as int, false),
            k <= old(self).bound() ==> final(self)@ == old(self)@.update(k as int, false),
            k > old(self).bound() ==> final(self)@ == old(self)@,
    {
        let word: usize = k >> 5;
        let offset: u32 = (k & 31) as u32;
        proof {
            lemma_split_index(k);
        }
        let before: u32 = self.primes[word];
        self.primes[word] = before & !(1u32 << offset);
        proof {
            assert forall|i: int| 0 <= i < self.storage().len() implies self.storage()[i] == old(self).storage().update(k as int, false)[i] by {
                if i / 32 == word {
                    lemma_cleared_word(before, offset, (i % 32) as u32);
                }
            }
            assert(self.storage() =~= old(self).storage().update(k as int, false));
            self.lemma_flags_lead_storage();
            old(self).lemma_flags_lead_storage();
            if k <= self.n {
                assert(self@ =~= old(self)@.update(k as int, false));
            } else {
                assert(self@ =~= old(self)@);
            }
        }
    }

    /// Sets bit `k` of the storage, which is bit `k mod 32` of word
    /// `k div 32`, and no other. The sieve only ever clears bits; this is the
    /// other half of the storage.
    #[allow(dead_code)]
    fn turn_on(&mut self, k: usize)
        requires
            old(self).wf(),
            k < old(self).storage().len(),
        ensures
            final(self).wf(),
            final(self).bound() == old(self).bound(),
            final(self).storage() == old(self).storage().update(k as int, true),
            k <= old(self).bound() ==> final(self)@ == old(self)@.update(k as int, true),
            k > old(self).bound() ==> final(self)@ == old(self)@,
    {
        let word: usize = k >> 5;
        let offset: u32 = (k & 31) as u32;
        proof {
            lemma_split_index(k);
        }
        let before: u32 = self.primes[word];
        self.primes[word] = before | (1u32 << offset);
        proof {
            assert forall|i: int| 0 <= i < self.storage().len() implies self.storage()[i] == old(self).storage().update(k as int, true)[i] by {
                if i / 32 == word {
                    lemma_set_word(before, offset, (i % 32) as u32);
                }
            }
            assert(self.storage() =~= old(self).storage().update(k as int, true));
            self.lemma_flags_lead_storage();
            old(self).lemma_flags_lead_storage();
            if k <= self.n {
                assert(self@ =~= old(self)@.update(k as int, true));
            } else {
                assert(self@ =~= old(self)@);
            }
        }
    }

    /// The largest candidate that the table covers.
    pub fn max_candidate(&self) -> (n: usize)
        ensures
            n == self.bound(),
    {
        self.n
    }

    /// Whether the bit of candidate `k` is set; in a finished table, whether
    /// `k` is prime.
    pub fn is_prime(&self, k: usize) -> (prime: bool)
        requires
            self.wf(),
            k <= self.bound(),
        ensures
            prime == self@[k as int],
            self.sieved() ==> prime == is_prime_number(k as int),
    {
        proof {
            lemma_split_index(k);
        }
        ((self.primes[k >> 5] >> (k & 31)) & 1) != 0
    }

    /// Answers for any `k`: the candidate's flag where the table covers `k`,
    /// nothing where `k` lies beyond the bound.
    pub fn lookup(&self, k: usize) -> (answer: Option<bool>)
        requires
            self.wf(),
        ensures
            answer == if k <= self.bound() {
                Some(self@[k as int])
            } else {
                None
            },
    {
        if k > self.n {
            None
        } else {
            Some(self.is_prime(k))
        }
    }

    /// How many of `rows` rows of `cols` cells can be drawn: the largest
    /// number of leading rows whose cells all stand for candidates that the
    /// table covers.
    pub fn rows_in_reach(&self, rows: usize, cols: usize) -> (reach: usize)
        ensures
            reach <= rows,
            reach * cols <= self.bound() + 1,
            reach < rows ==> (reach + 1) * cols > self.bound() + 1,
    {
        if cols == 0 {
            assert(rows * cols == 0) by (nonlinear_arith)
                requires
                    cols == 0,
            ;
            return rows;
        }
        let full: usize = self.n / cols;
        let rest: usize = self.n % cols;
        proof {
            lemma_fundamental_div_mod(self.n as int, cols as int);
        }
        if full >= rows {
            assert(rows * cols <= self.n) by (nonlinear_arith)
                requires
                    self.n == cols * full + rest,
                    rows <= full,
                    0 <= rest,
                    0 <= cols,
            ;
            rows
        } else {
            let reach: usize = if rest == cols - 1 {
                full + 1
            } else {
                full
            };
            assert(reach * cols <= self.n + 1 && (reach + 1) * cols > self.n + 1)
                by (nonlinear_arith)
                requires
                    self.n == cols * full + rest,
                    0 <= rest < cols,
                    rest == cols - 1 ==> reach == full + 1,
                    rest != cols - 1 ==> reach == full,
            ;
            reach
        }
    }

    /// Draws the first `rows * cols` candidates as a grid of glyphs, row by
    /// row: the cell in row `i` and column `j` stands for candidate
    /// `cols * i + j`.
    pub fn render_table(&self, rows: usize, cols: usize) -> (grid: Vec<Vec<char>>)
        requires
            self.wf(),
            rows * cols <= self.bound() + 1,
        ensures
            grid@.len() == rows,
            forall|i: int| 0 <= i < rows ==> (#[trigger] grid@[i])@.len() == cols,
            forall|i: int, j: int|
                0 <= i < rows && 0 <= j < cols ==> #[trigger] grid@[i]@[j] == glyph(
                    self@[cols * i + j],
                ),
    {
        let mut grid: Vec<Vec<char>> = Vec::new();
        for i in 0..rows
            invariant
                self.wf(),
                rows * cols <= self.bound() + 1,
                grid@.len() == i,
                forall|a: int| 0 <= a < i ==> (#[trigger] grid@[a])@.len() == cols,
                forall|a: int, b: int|
                    0 <= a < i && 0 <= b < cols ==> #[trigger] grid@[a]@[b] == glyph(
                        self@[cols * a + b],
                    ),
        {
            let mut row: Vec<char> = Vec::new();
            for j in 0..cols
                invariant
                    self.wf(),
                    rows * cols <= self.bound() + 1,
                    i < rows,
                    row@.len() == j,
                    forall|b: int| 0 <= b < j ==> #[trigger] row@[b] == glyph(self@[cols * i + b]),
            {
                assert(cols * i + j < rows * cols) by (nonlinear_arith)
                    requires
                        i < rows,
                        j < cols,
                ;
                assert(0 <= cols * i <= cols * i + j) by (nonlinear_arith)
                    requires
                        0 <= i,
                        0 <= j,
                        0 <= cols,
                ;
                if self.is_prime(cols * i + j) {
                    row.push(PRIME_GLYPH);
                } else {
                    row.push(OTHER_GLYPH);
                }
            }
            grid.push(row);
        }
        grid
    }
}

impl PrimeTable {
    /// A finished table marks exactly the primes: the flag of every candidate
    /// that it covers is set if and only if the candidate is a prime number.
    pub proof fn lemma_marks_exactly_primes(&self, k: int)
        requires
            self.wf(),
            self.sieved(),
            0 <= k <= self.bound(),
        ensures
            self@[k] == is_prime_number(k),
    {
    }

    /// Neither 0 nor 1 is marked in a finished table, whatever its bound.
    pub proof fn lemma_zero_and_one_unmarked(&self)
        requires
            self.wf(),
            self.sieved(),
        ensures
            !self@[0],
            self.bound() >= 1 ==> !self@[1],
    {
    }

    /// The table with bound 0 holds the single flag of candidate 0, unset.
    pub proof fn lemma_smallest_table(&self)
        requires
            self.wf(),
            self.sieved(),
            self.bound() == 0,
        ensures
            self@ == seq![false],
    {
    }

    /// Asking again gives the same answer: what `is_prime` returns is fixed by
    /// the table and the candidate, and no call changes the table.
    pub proof fn lemma_answer_is_fixed(&self, k: usize, first: bool, second: bool)
        requires
            self.wf(),
            k <= self.bound(),
            first == self@[k as int],
            second == self@[k as int],
        ensures
            first == second,
    {
    }

    /// Two finished tables give the same answer for every candidate that both
    /// cover: a larger bound adds candidates and changes none.
    pub proof fn lemma_tables_agree(&self, other: &PrimeTable, k: int)
        requires
            self.wf(),
            other.wf(),
            self.sieved(),
            other.sieved(),
            0 <= k <= self.bound(),
            k <= other.bound(),
        ensures
            self@[k] == other@[k],
    {
    }
}

} // verus!
