use vstd::prelude::*;

use crate::genome::Genome;
use crate::rng::rand_below;
use vstd::arithmetic::div_mod::{lemma_fundamental_div_mod, lemma_mod_bound};

verus! {

/// A member entry: the organism's index in the population, its stored
/// (possibly stagnation-penalized) fitness, and its adjusted fitness.
pub type Member = (usize, u64, u64);

/// How many member entries carry the given organism index.
pub open spec fn id_count(s: Seq<Member>, id: usize) -> int
    decreases s.len(),
{
    if s.len() == 0 {
        0
    } else {
        id_count(s.drop_last(), id) + if s.last().0 == id {
            1int
        } else {
            0int
        }
    }
}

/// How many entries of the sequence equal the given tuple exactly.
pub open spec fn member_count(s: Seq<Member>, m: Member) -> int
    decreases s.len(),
{
    if s.len() == 0 {
        0
    } else {
        member_count(s.drop_last(), m) + if s.last() == m {
            1int
        } else {
            0int
        }
    }
}

/// Inserting one entry raises exactly its own tuple's count by one.
pub proof fn lemma_member_count_insert(s: Seq<Member>, p: int, e: Member)
    requires
        0 <= p <= s.len(),
    ensures
        forall|m: Member|
            #[trigger] member_count(s.insert(p, e), m) == member_count(s, m) + if e == m {
                1int
            } else {
                0int
            },
    decreases s.len(),
{
    let s1 = s.insert(p, e);
    if p == s.len() {
        assert(s1 =~= s.push(e));
        assert forall|m: Member|
            #[trigger] member_count(s1, m) == member_count(s, m) + if e == m {
                1int
            } else {
                0int
            } by {
            assert(s1.drop_last() =~= s);
        }
    } else {
        lemma_member_count_insert(s.drop_last(), p, e);
        assert forall|m: Member|
            #[trigger] member_count(s1, m) == member_count(s, m) + if e == m {
                1int
            } else {
                0int
            } by {
            assert(s1.drop_last() =~= s.drop_last().insert(p, e));
            assert(s1.last() == s.last());
            assert(member_count(s.drop_last().insert(p, e), m) == member_count(s.drop_last(), m)
                + if e == m {
                1int
            } else {
                0int
            });
            assert(s1.len() > 0);
            assert(member_count(s1, m) == member_count(s1.drop_last(), m) + if s1.last() == m {
                1int
            } else {
                0int
            });
            assert(member_count(s, m) == member_count(s.drop_last(), m) + if s.last() == m {
                1int
            } else {
                0int
            });
        }
    }
}

/// The entry occurs in the sequence.
pub open spec fn contains_member(s: Seq<Member>, m: Member) -> bool {
    exists|j: int| 0 <= j < s.len() && s[j] == m
}

/// Every entry of the first sequence occurs in the second.
pub open spec fn entries_from(a: Seq<Member>, b: Seq<Member>) -> bool {
    forall|i: int| 0 <= i < a.len() ==> contains_member(b, #[trigger] a[i])
}

/// Member entries ordered by descending stored fitness.
pub open spec fn sorted_by_fitness_desc(s: Seq<Member>) -> bool {
    forall|i: int, j: int| 0 <= i < j < s.len() ==> (#[trigger] s[i]).1 >= (#[trigger] s[j]).1
}

pub proof fn lemma_id_count_nonneg(s: Seq<Member>, id: usize)
    ensures
        0 <= id_count(s, id) <= s.len(),
    decreases s.len(),
{
    if s.len() > 0 {
        lemma_id_count_nonneg(s.drop_last(), id);
    }
}

/// Inserting one entry raises exactly its own index's count by one.
pub proof fn lemma_id_count_insert(s: Seq<Member>, p: int, e: Member)
    requires
        0 <= p <= s.len(),
    ensures
        forall|id: usize|
            #[trigger] id_count(s.insert(p, e), id) == id_count(s, id) + if e.0 == id {
                1int
            } else {
                0int
            },
    decreases s.len(),
{
    let s1 = s.insert(p, e);
    if p == s.len() {
        assert(s1 =~= s.push(e));
        assert forall|id: usize|
            #[trigger] id_count(s1, id) == id_count(s, id) + if e.0 == id {
                1int
            } else {
                0int
            } by {
            assert(s1.drop_last() =~= s);
        }
    } else {
        lemma_id_count_insert(s.drop_last(), p, e);
        assert forall|id: usize|
            #[trigger] id_count(s1, id) == id_count(s, id) + if e.0 == id {
                1int
            } else {
                0int
            } by {
            assert(s1.drop_last() =~= s.drop_last().insert(p, e));
            assert(s1.last() == s.last());
            assert(id_count(s.drop_last().insert(p, e), id) == id_count(s.drop_last(), id) + if e.0
                == id {
                1int
            } else {
                0int
            });
        }
    }
}

/// Two sequences whose entries carry the same indices pointwise have the
/// same counts.
pub proof fn lemma_id_count_pointwise(a: Seq<Member>, b: Seq<Member>)
    requires
        a.len() == b.len(),
        forall|i: int| 0 <= i < a.len() ==> (#[trigger] a[i]).0 == b[i].0,
    ensures
        forall|id: usize| #[trigger] id_count(a, id) == id_count(b, id),
    decreases a.len(),
{
    if a.len() > 0 {
        assert forall|i: int| 0 <= i < a.drop_last().len() implies (#[trigger] a.drop_last()[i]).0
            == b.drop_last()[i].0 by {
            assert(a[i].0 == b[i].0);
        }
        lemma_id_count_pointwise(a.drop_last(), b.drop_last());
        assert forall|id: usize| #[trigger] id_count(a, id) == id_count(b, id) by {
            assert(a.last().0 == b.last().0);
            assert(id_count(a.drop_last(), id) == id_count(b.drop_last(), id));
        }
    }
}

/// The fitness a member is stored with: the raw fitness, cut sharply when
/// the species has stagnated past the dropoff age.
pub open spec fn spec_stored_fitness(raw: u64, stagnated: u64, dropoff_age: u64) -> u64 {
    if stagnated > dropoff_age {
        (raw / 1000) as u64
    } else {
        raw
    }
}

/// A cluster of genome references sharing a topology: crossover happens
/// within it and fitness is shared across it. The representative persists
/// between generations; membership is rebuilt each generation.
pub struct Species {
    pub id: u64,
    pub representative: Genome,
    pub members: Vec<Member>,
    pub total_fitness: u128,
    pub max_ever_fitness: u64,
    pub best_fitness: u64,
    pub total_adj_fitness: u128,
    pub gens_stagnated: u64,
}

impl Species {
    /// Member indices all point into a population of the given size.
    pub open spec fn members_in(&self, pop: int) -> bool {
        forall|i: int| 0 <= i < self.members@.len() ==> (#[trigger] self.members@[i]).0 < pop
    }

    /// Creates a new species around a representative.
    pub fn new(id: u64, representative: Genome) -> (r: Species)
        ensures
            r.id == id,
            r.representative == representative,
            r.members@ == Seq::<Member>::empty(),
            r.gens_stagnated == 0,
            r.total_fitness == 0,
            r.best_fitness == 0,
            r.total_adj_fitness == 0,
            r.max_ever_fitness == 0,
    {
        Species {
            id,
            representative,
            members: Vec::new(),
            total_fitness: 0,
            max_ever_fitness: 0,
            best_fitness: 0,
            total_adj_fitness: 0,
            gens_stagnated: 0,
        }
    }

    /// Opens a new generation: membership and per-generation statistics are
    /// reset, the stagnation counter ticks up, the representative stays.
    pub fn new_generation(&mut self)
        ensures
            final(self).members@ == Seq::<Member>::empty(),
            final(self).total_fitness == 0,
            final(self).total_adj_fitness == 0,
            final(self).best_fitness == 0,
            final(self).gens_stagnated == if old(self).gens_stagnated < u64::MAX {
                old(self).gens_stagnated + 1
            } else {
                old(self).gens_stagnated as int
            },
            final(self).id == old(self).id,
            final(self).representative == old(self).representative,
            final(self).max_ever_fitness == old(self).max_ever_fitness,
    {
        self.members = Vec::new();
        self.total_fitness = 0;
        self.total_adj_fitness = 0;
        self.best_fitness = 0;
        if self.gens_stagnated < u64::MAX {
            self.gens_stagnated = self.gens_stagnated + 1;
        }
    }

    /// Inserts a genome into the species: updates the all-time and
    /// per-generation bests (unpenalized), resets stagnation on improvement,
    /// and stores the member under a sharply reduced fitness while the
    /// species stagnates past the dropoff age.
    pub fn insert(&mut self, g_id: usize, fitness: u64, dropoff_age: u64)
        requires
            old(self).members@.len() < usize::MAX,
        ensures
            final(self).max_ever_fitness == if fitness > old(self).max_ever_fitness {
                fitness
            } else {
                old(self).max_ever_fitness
            },
            final(self).gens_stagnated == if fitness > old(self).max_ever_fitness {
                0
            } else {
                old(self).gens_stagnated
            },
            final(self).best_fitness == if fitness > old(self).best_fitness {
                fitness
            } else {
                old(self).best_fitness
            },
            final(self).members@ == old(self).members@.push(
                (
                    g_id,
                    spec_stored_fitness(fitness, final(self).gens_stagnated, dropoff_age),
                    0u64,
                ),
            ),
            final(self).total_fitness == if old(self).total_fitness + spec_stored_fitness(
                fitness,
                final(self).gens_stagnated,
                dropoff_age,
            ) <= u128::MAX {
                old(self).total_fitness + spec_stored_fitness(
                    fitness,
                    final(self).gens_stagnated,
                    dropoff_age,
                )
            } else {
                u128::MAX as int
            },
            final(self).id == old(self).id,
            final(self).representative == old(self).representative,
            final(self).total_adj_fitness == old(self).total_adj_fitness,
    {
        if fitness > self.max_ever_fitness {
            self.max_ever_fitness = fitness;
            self.gens_stagnated = 0;
        }
        if fitness > self.best_fitness {
            self.best_fitness = fitness;
        }
        let stored: u64 = if self.gens_stagnated > dropoff_age {
            fitness / 1000
        } else {
            fitness
        };
        self.members.push((g_id, stored, 0));
        if self.total_fitness <= u128::MAX - stored as u128 {
            self.total_fitness = self.total_fitness + stored as u128;
        } else {
            self.total_fitness = u128::MAX;
        }
    }

    /// Sorts the members by descending stored fitness. Each organism index
    /// keeps its number of entries, and every entry is one of the old
    /// entries.
    pub fn sort_by_fitness(&mut self)
        ensures
            final(self).members@.len() == old(self).members@.len(),
            sorted_by_fitness_desc(final(self).members@),
            forall|id: usize|
                #[trigger] id_count(final(self).members@, id) == id_count(old(self).members@, id),
            forall|m: Member|
                #[trigger] member_count(final(self).members@, m) == member_count(
                    old(self).members@,
                    m,
                ),
            entries_from(final(self).members@, old(self).members@),
            final(self).id == old(self).id,
            final(self).representative == old(self).representative,
            final(self).total_fitness == old(self).total_fitness,
            final(self).total_adj_fitness == old(self).total_adj_fitness,
            final(self).best_fitness == old(self).best_fitness,
            final(self).max_ever_fitness == old(self).max_ever_fitness,
            final(self).gens_stagnated == old(self).gens_stagnated,
    {
        let ghost orig = self.members@;
        let mut acc: Vec<Member> = Vec::new();
        let mut k: usize = 0;
        while k < self.members.len()
            invariant
                k <= self.members@.len(),
                self.members@ == orig,
                acc@.len() == k,
                sorted_by_fitness_desc(acc@),
                forall|id: usize|
                    #[trigger] id_count(acc@, id) == id_count(orig.take(k as int), id),
                forall|m: Member|
                    #[trigger] member_count(acc@, m) == member_count(orig.take(k as int), m),
                entries_from(acc@, orig),
            decreases self.members@.len() - k,
        {
            let e = self.members[k];
            let ghost acc0 = acc@;
            // scan back to the first position whose fitness is not smaller
            let mut index: usize = acc.len();
            while index > 0 && acc[index - 1].1 < e.1
                invariant
                    acc@ == acc0,
                    index <= acc@.len(),
                    forall|t: int| index <= t < acc@.len() ==> (#[trigger] acc@[t]).1 < e.1,
                decreases index,
            {
                index -= 1;
            }
            acc.insert(index, e);
            proof {
                assert(acc@ == acc0.insert(index as int, e));
                lemma_id_count_insert(acc0, index as int, e);
                lemma_member_count_insert(acc0, index as int, e);
                assert(orig.take(k + 1).drop_last() =~= orig.take(k as int));
                assert(orig.take(k + 1).last() == orig[k as int]);
                assert(sorted_by_fitness_desc(acc@)) by {
                    assert forall|a: int, b: int| 0 <= a < b < acc@.len() implies (
                    #[trigger] acc@[a]).1 >= (#[trigger] acc@[b]).1 by {
                        if a < index && b > index {
                            assert(acc@[a] == acc0[a] && acc@[b] == acc0[b - 1]);
                        } else if a < index && b == index {
                            assert(acc@[a] == acc0[a]);
                            if index > 0 {
                            }
                        } else if a == index && b > index {
                            assert(acc@[b] == acc0[b - 1]);
                        } else if a > index && b > index {
                            assert(acc@[a] == acc0[a - 1] && acc@[b] == acc0[b - 1]);
                        }
                    }
                }
                assert forall|i: int| 0 <= i < acc@.len() implies contains_member(
                    orig,
                    #[trigger] acc@[i],
                ) by {
                    if i < index {
                        assert(acc@[i] == acc0[i]);
                        assert(contains_member(orig, acc0[i]));
                    } else if i == index {
                        assert(acc@[i] == orig[k as int]);
                    } else {
                        assert(acc@[i] == acc0[i - 1]);
                        assert(contains_member(orig, acc0[i - 1]));
                    }
                }
            }
            k += 1;
        }
        proof {
            assert(orig.take(orig.len() as int) =~= orig);
        }
        self.members = acc;
    }

    /// Assigns each member its adjusted fitness (fitness shared across the
    /// species: stored fitness over species size) and returns their sum,
    /// which is also recorded on the species.
    pub fn calc_adj_fitnesses(&mut self) -> (r: u128)
        requires
            old(self).members@.len() > 0,
        ensures
            final(self).members@.len() == old(self).members@.len(),
            forall|i: int|
                0 <= i < final(self).members@.len() ==> #[trigger] final(self).members@[i] == (
                old(self).members@[i].0,
                old(self).members@[i].1,
                ((old(self).members@[i].1 as int) / (old(self).members@.len() as int)) as u64,
                ),
            forall|id: usize|
                #[trigger] id_count(final(self).members@, id) == id_count(old(self).members@, id),
            r == final(self).total_adj_fitness,
            final(self).id == old(self).id,
            final(self).representative == old(self).representative,
            final(self).total_fitness == old(self).total_fitness,
            final(self).best_fitness == old(self).best_fitness,
            final(self).max_ever_fitness == old(self).max_ever_fitness,
            final(self).gens_stagnated == old(self).gens_stagnated,
            sorted_by_fitness_desc(old(self).members@) ==> sorted_by_fitness_desc(
                final(self).members@,
            ),
    {
        let ghost orig = self.members@;
        let length = self.members.len();
        let mut sum: u128 = 0;
        let mut i: usize = 0;
        while i < length
            invariant
                length == orig.len(),
                0 < length,
                i <= length,
                self.members@.len() == orig.len(),
                forall|j: int| i <= j < orig.len() ==> #[trigger] self.members@[j] == orig[j],
                forall|j: int|
                    0 <= j < i ==> #[trigger] self.members@[j] == (
                    orig[j].0,
                    orig[j].1,
                    ((orig[j].1 as int) / (orig.len() as int)) as u64,
                    ),
                sum <= i * 0x1_0000_0000_0000_0000,
                self.id == old(self).id,
                self.representative == old(self).representative,
                self.total_fitness == old(self).total_fitness,
                self.best_fitness == old(self).best_fitness,
                self.max_ever_fitness == old(self).max_ever_fitness,
                self.gens_stagnated == old(self).gens_stagnated,
                self.total_adj_fitness == old(self).total_adj_fitness,
            decreases length - i,
        {
            let m = self.members[i];
            let adj: u64 = m.1 / (length as u64);
            self.members.set(i, (m.0, m.1, adj));
            proof {
                assert((i + 1) * 0x1_0000_0000_0000_0000 == i * 0x1_0000_0000_0000_0000
                    + 0x1_0000_0000_0000_0000) by (nonlinear_arith);
                assert(i * 0x1_0000_0000_0000_0000 <= 0x1_0000_0000_0000_0000
                    * 0x1_0000_0000_0000_0000) by (nonlinear_arith)
                    requires
                        0 <= i <= 0x1_0000_0000_0000_0000,
                {
                }
            }
            sum = sum + adj as u128;
            i += 1;
        }
        self.total_adj_fitness = sum;
        proof {
            lemma_id_count_pointwise(self.members@, orig);
        }
        sum
    }

    /// How many offspring this species may produce: its share of the
    /// population in proportion of its average adjusted fitness to the
    /// population's average adjusted fitness, rounded down and clamped to
    /// `usize`.
    pub fn allowed_offspring(&self, pop_avg_adj_fit: u64) -> (r: usize)
        requires
            pop_avg_adj_fit > 0,
            self.members@.len() > 0,
        ensures
            r as int == spec_allowed_offspring(
                self.total_adj_fitness as int,
                self.members@.len() as int,
                pop_avg_adj_fit as int,
            ),
    {
        let len = self.members.len() as u128;
        let average_adj_fitness = self.total_adj_fitness / len;
        proof {
            lemma_fundamental_div_mod(self.total_adj_fitness as int, len as int);
            lemma_mod_bound(self.total_adj_fitness as int, len as int);
            assert((average_adj_fitness * len) as int == (len as int) * (
            self.total_adj_fitness as int / len as int)) by (nonlinear_arith)
                requires
                    average_adj_fitness == self.total_adj_fitness as int / len as int,
            {
            }
        }
        let allowed = (average_adj_fitness * len) / (pop_avg_adj_fit as u128);
        if allowed > usize::MAX as u128 {
            usize::MAX
        } else {
            allowed as usize
        }
    }

    pub fn is_extinct(&self) -> (r: bool)
        ensures
            r == (self.members@.len() == 0),
    {
        self.members.len() == 0
    }

    /// A random member, drawn with probability proportional to its adjusted
    /// fitness (the first member where a zero total leaves no weights to
    /// draw from).
    pub fn get_fit_member_id(&self) -> (r: usize)
        requires
            self.members@.len() > 0,
        ensures
            exists|i: int| 0 <= i < self.members@.len() && r == (#[trigger] self.members@[i]).0,
    {
        let n = self.members.len();
        let mut total: u128 = 0;
        let mut i: usize = 0;
        while i < n
            invariant
                n == self.members@.len(),
                i <= n,
                total <= i * 0x1_0000_0000_0000_0000,
            decreases n - i,
        {
            proof {
                assert((i + 1) * 0x1_0000_0000_0000_0000 == i * 0x1_0000_0000_0000_0000
                    + 0x1_0000_0000_0000_0000) by (nonlinear_arith);
                assert(i * 0x1_0000_0000_0000_0000 <= 0x1_0000_0000_0000_0000
                    * 0x1_0000_0000_0000_0000) by (nonlinear_arith)
                    requires
                        0 <= i <= 0x1_0000_0000_0000_0000,
                {
                }
            }
            total = total + self.members[i].2 as u128;
            i += 1;
        }
        if total == 0 {
            let first = self.members[0];
            proof {
                assert(self.members@[0].0 == first.0);
            }
            return first.0;
        }
        let mut rem = rand_below(total);
        let mut index: usize = 0;
        while index < n - 1
            invariant
                n == self.members@.len(),
                index < n,
            decreases n - index,
        {
            let w = self.members[index].2 as u128;
            if rem < w {
                let picked = self.members[index];
                proof {
                    assert(self.members@[index as int].0 == picked.0);
                }
                return picked.0;
            }
            rem = rem - w;
            index += 1;
        }
        let last = self.members[n - 1];
        proof {
            assert(self.members@[n - 1].0 == last.0);
        }
        last.0
    }

    /// The top member after a fitness sort.
    pub fn get_first(&self) -> (r: usize)
        requires
            self.members@.len() > 0,
        ensures
            r == self.members@[0].0,
    {
        self.members[0].0
    }

    /// The middle member of the fitness order, a stable choice of
    /// representative.
    pub fn get_median_id(&self) -> (r: usize)
        requires
            self.members@.len() > 0,
        ensures
            self.members@.len() < 3 ==> r == self.members@[0].0,
            self.members@.len() >= 3 ==> r == self.members@[self.members@.len() as int / 2].0,
    {
        if self.members.len() < 3 {
            self.members[0].0
        } else {
            self.members[self.members.len() / 2].0
        }
    }

    pub fn get_gens_stagnated(&self) -> (r: u64)
        ensures
            r == self.gens_stagnated,
    {
        self.gens_stagnated
    }

    pub fn get_best_fitness(&self) -> (r: u64)
        ensures
            r == self.best_fitness,
    {
        self.best_fitness
    }

    /// The mean stored fitness of the members.
    pub fn get_mean_fitness(&self) -> (r: u128)
        requires
            self.members@.len() > 0,
        ensures
            r == self.total_fitness as int / self.members@.len() as int,
    {
        self.total_fitness / (self.members.len() as u128)
    }

    pub fn len(&self) -> (r: usize)
        ensures
            r == self.members@.len(),
    {
        self.members.len()
    }

    pub fn get_rep(&self) -> (r: &Genome)
        ensures
            *r == self.representative,
    {
        &self.representative
    }

    pub fn get_id(&self) -> (r: u64)
        ensures
            r == self.id,
    {
        self.id
    }

    pub fn set_rep(&mut self, g: Genome)
        ensures
            *final(self) == (Species { representative: g, ..*old(self) }),
    {
        self.representative = g;
    }

    /// The member organism indices, in member order.
    pub fn get_g_ids(&self) -> (r: Vec<usize>)
        ensures
            r@.len() == self.members@.len(),
            forall|i: int| 0 <= i < r@.len() ==> #[trigger] r@[i] == self.members@[i].0,
    {
        let mut res: Vec<usize> = Vec::new();
        let mut i: usize = 0;
        while i < self.members.len()
            invariant
                i <= self.members@.len(),
                res@.len() == i,
                forall|j: int| 0 <= j < i ==> #[trigger] res@[j] == self.members@[j].0,
            decreases self.members@.len() - i,
        {
            res.push(self.members[i].0);
            i += 1;
        }
        res
    }
}

/// The offspring count before clamping: average adjusted fitness of the
/// species over the population average, times the species size.
pub open spec fn spec_allowed_offspring(total_adj: int, len: int, pop_avg: int) -> int {
    let allowed = (total_adj / len) * len / pop_avg;
    if allowed > usize::MAX {
        usize::MAX as int
    } else {
        allowed
    }
}

} // verus!
