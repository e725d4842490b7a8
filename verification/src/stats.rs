//! What went wrong while typing, as counts.

use vstd::prelude::*;

verus! {

/// How many zones of one country found no table of rules.
#[derive(Debug)]
pub struct CountryCount {
    pub country: String,
    pub count: usize,
}

/// How many zones of one country and one administrative level found no line
/// in the country's table.
#[derive(Debug)]
pub struct LevelCount {
    pub country: String,
    pub level: u32,
    pub count: usize,
}

/// The counts kept while an ontology is built. A country, or a country and a
/// level, may stand on several lines: what counts is the sum of its lines.
#[derive(Debug)]
pub struct CosmogonyStats {
    pub zone_with_unkwown_country_rules: Vec<CountryCount>,
    pub unhandled_admin_level: Vec<LevelCount>,
    pub zone_without_country: usize,
}

/// The sum of the lines of `entries` for `country`.
pub open spec fn country_count(entries: Seq<CountryCount>, country: Seq<char>) -> nat
    decreases entries.len(),
{
    if entries.len() == 0 {
        0
    } else {
        country_count(entries.drop_last(), country) + if entries.last().country@ == country {
            entries.last().count as nat
        } else {
            0
        }
    }
}

/// The sum of all the lines of `entries`.
pub open spec fn country_total(entries: Seq<CountryCount>) -> nat
    decreases entries.len(),
{
    if entries.len() == 0 {
        0
    } else {
        country_total(entries.drop_last()) + entries.last().count as nat
    }
}

/// The sum of the lines of `entries` for `country` at `level`.
pub open spec fn level_count(entries: Seq<LevelCount>, country: Seq<char>, level: u32) -> nat
    decreases entries.len(),
{
    if entries.len() == 0 {
        0
    } else {
        level_count(entries.drop_last(), country, level) + if entries.last().country@ == country
            && entries.last().level == level {
            entries.last().count as nat
        } else {
            0
        }
    }
}

/// The sum of all the lines of `entries`.
pub open spec fn level_total(entries: Seq<LevelCount>) -> nat
    decreases entries.len(),
{
    if entries.len() == 0 {
        0
    } else {
        level_total(entries.drop_last()) + entries.last().count as nat
    }
}

/// No line counts more than all the lines together.
proof fn lemma_country_line_bounded(entries: Seq<CountryCount>, i: int)
    requires
        0 <= i < entries.len(),
    ensures
        entries[i].count <= country_total(entries),
    decreases entries.len(),
{
    if i < entries.len() - 1 {
        lemma_country_line_bounded(entries.drop_last(), i);
    }
}

/// One more on one line is one more for its country, and one more in all.
proof fn lemma_country_bump(before: Seq<CountryCount>, after: Seq<CountryCount>, i: int)
    requires
        0 <= i < before.len(),
        after.len() == before.len(),
        forall|j: int| 0 <= j < before.len() && j != i ==> after[j] == before[j],
        after[i].country@ == before[i].country@,
        after[i].count == before[i].count + 1,
    ensures
        country_total(after) == country_total(before) + 1,
        forall|c: Seq<char>|
            (#[trigger] country_count(after, c)) ==
                country_count(before, c) + if c == before[i].country@ {
                1nat
            } else {
                0nat
            },
    decreases before.len(),
{
    let n = before.len() - 1;
    assert(after.last() == after[n]);
    assert(before.last() == before[n]);
    if i < n {
        lemma_country_bump(before.drop_last(), after.drop_last(), i);
        assert(after[n] == before[n]);
    } else {
        assert(after.drop_last() =~= before.drop_last());
    }
    assert forall|c: Seq<char>|
        (#[trigger] country_count(after, c)) ==
            country_count(before, c) + if c == before[i].country@ {
            1nat
        } else {
            0nat
        } by {
        if i < n {
            assert(country_count(after.drop_last(), c) == country_count(before.drop_last(), c)
                + if c == before.drop_last()[i].country@ {
                1nat
            } else {
                0nat
            });
        }
    }
}

/// No line counts more than all the lines together.
proof fn lemma_level_line_bounded(entries: Seq<LevelCount>, i: int)
    requires
        0 <= i < entries.len(),
    ensures
        entries[i].count <= level_total(entries),
    decreases entries.len(),
{
    if i < entries.len() - 1 {
        lemma_level_line_bounded(entries.drop_last(), i);
    }
}

/// One more on one line is one more for its country and level, and one more
/// in all.
proof fn lemma_level_bump(before: Seq<LevelCount>, after: Seq<LevelCount>, i: int)
    requires
        0 <= i < before.len(),
        after.len() == before.len(),
        forall|j: int| 0 <= j < before.len() && j != i ==> after[j] == before[j],
        after[i].country@ == before[i].country@,
        after[i].level == before[i].level,
        after[i].count == before[i].count + 1,
    ensures
        level_total(after) == level_total(before) + 1,
        forall|c: Seq<char>, l: u32|
            (#[trigger] level_count(after, c, l)) ==
                level_count(before, c, l) + if c == before[i].country@ && l
                == before[i].level {
                1nat
            } else {
                0nat
            },
    decreases before.len(),
{
    let n = before.len() - 1;
    assert(after.last() == after[n]);
    assert(before.last() == before[n]);
    if i < n {
        lemma_level_bump(before.drop_last(), after.drop_last(), i);
        assert(after[n] == before[n]);
    } else {
        assert(after.drop_last() =~= before.drop_last());
    }
    assert forall|c: Seq<char>, l: u32|
        (#[trigger] level_count(after, c, l)) ==
            level_count(before, c, l) + if c == before[i].country@ && l
            == before[i].level {
            1nat
        } else {
            0nat
        } by {
        if i < n {
            assert(level_count(after.drop_last(), c, l) == level_count(before.drop_last(), c, l)
                + if c == before.drop_last()[i].country@ && l == before.drop_last()[i].level {
                1nat
            } else {
                0nat
            });
        }
    }
}

impl Default for CosmogonyStats {
    /// Statistics in which nothing has been counted yet.
    fn default() -> (r: CosmogonyStats)
        ensures
            r.counted() == 0,
            r.zone_without_country == 0,
            r.zone_with_unkwown_country_rules@.len() == 0,
            r.unhandled_admin_level@.len() == 0,
    {
        CosmogonyStats {
            zone_with_unkwown_country_rules: Vec::new(),
            unhandled_admin_level: Vec::new(),
            zone_without_country: 0,
        }
    }
}

impl CosmogonyStats {
    /// How many zones of `country` found no table of rules.
    pub open spec fn unknown_country(&self, country: Seq<char>) -> nat {
        country_count(self.zone_with_unkwown_country_rules@, country)
    }

    /// How many zones of `country` at `level` found no line in the table.
    pub open spec fn unhandled_level(&self, country: Seq<char>, level: u32) -> nat {
        level_count(self.unhandled_admin_level@, country, level)
    }

    /// How many zones found no rule, whatever the country and the level.
    pub open spec fn unmapped(&self) -> nat {
        country_total(self.zone_with_unkwown_country_rules@) + level_total(
            self.unhandled_admin_level@,
        )
    }

    /// How many zones were counted in all.
    pub open spec fn counted(&self) -> nat {
        self.unmapped() + self.zone_without_country as nat
    }

    /// Statistics in which nothing has been counted yet.
    pub fn new() -> (r: CosmogonyStats)
        ensures
            r.counted() == 0,
            r.zone_without_country == 0,
            forall|c: Seq<char>| (#[trigger] r.unknown_country(c)) == 0,
            forall|c: Seq<char>, l: u32| (#[trigger] r.unhandled_level(c, l)) == 0,
    {
        CosmogonyStats {
            zone_with_unkwown_country_rules: Vec::new(),
            unhandled_admin_level: Vec::new(),
            zone_without_country: 0,
        }
    }

    /// Counts one more zone for which no country was found.
    pub fn add_zone_without_country(&mut self)
        requires
            old(self).counted() < usize::MAX,
        ensures
            final(self).zone_without_country == old(self).zone_without_country + 1,
            final(self).zone_with_unkwown_country_rules == old(self).zone_with_unkwown_country_rules,
            final(self).unhandled_admin_level == old(self).unhandled_admin_level,
            final(self).counted() == old(self).counted() + 1,
    {
        self.zone_without_country += 1;
    }

    /// Counts one more zone of `country` that found no table of rules.
    pub fn add_unknown_country(&mut self, country: String)
        requires
            old(self).counted() < usize::MAX,
        ensures
            forall|c: Seq<char>|
                (#[trigger] final(self).unknown_country(c)) ==
                    old(self).unknown_country(c) + if c == country@ {
                    1nat
                } else {
                    0nat
                },
            final(self).unhandled_admin_level == old(self).unhandled_admin_level,
            final(self).zone_without_country == old(self).zone_without_country,
            final(self).counted() == old(self).counted() + 1,
    {
        let mut i: usize = 0;
        while i < self.zone_with_unkwown_country_rules.len()
            invariant
                *self == *old(self),
                self.counted() < usize::MAX,
                i <= self.zone_with_unkwown_country_rules.len(),
            decreases self.zone_with_unkwown_country_rules.len() - i,
        {
            if self.zone_with_unkwown_country_rules[i].country == country {
                proof {
                    lemma_country_line_bounded(self.zone_with_unkwown_country_rules@, i as int);
                }
                let count = self.zone_with_unkwown_country_rules[i].count + 1;
                self.zone_with_unkwown_country_rules.set(i, CountryCount { country, count });
                proof {
                    lemma_country_bump(
                        old(self).zone_with_unkwown_country_rules@,
                        self.zone_with_unkwown_country_rules@,
                        i as int,
                    );
                }
                return ;
            }
            i += 1;
        }
        proof {
            assert(self.zone_with_unkwown_country_rules@.push(
                CountryCount { country, count: 1 },
            ).drop_last() =~= self.zone_with_unkwown_country_rules@);
        }
        self.zone_with_unkwown_country_rules.push(CountryCount { country, count: 1 });
    }

    /// Counts one more zone of `country` at `level` that found no line in the
    /// country's table.
    pub fn add_unhandled_level(&mut self, country: String, level: u32)
        requires
            old(self).counted() < usize::MAX,
        ensures
            forall|c: Seq<char>, l: u32|
                (#[trigger] final(self).unhandled_level(c, l)) ==
                    old(self).unhandled_level(c, l) + if c
                    == country@ && l == level {
                    1nat
                } else {
                    0nat
                },
            final(self).zone_with_unkwown_country_rules == old(self).zone_with_unkwown_country_rules,
            final(self).zone_without_country == old(self).zone_without_country,
            final(self).counted() == old(self).counted() + 1,
    {
        let mut i: usize = 0;
        while i < self.unhandled_admin_level.len()
            invariant
                *self == *old(self),
                self.counted() < usize::MAX,
                i <= self.unhandled_admin_level.len(),
            decreases self.unhandled_admin_level.len() - i,
        {
            if self.unhandled_admin_level[i].level == level && self.unhandled_admin_level[i].country
                == country {
                proof {
                    lemma_level_line_bounded(self.unhandled_admin_level@, i as int);
                }
                let count = self.unhandled_admin_level[i].count + 1;
                self.unhandled_admin_level.set(i, LevelCount { country, level, count });
                proof {
                    lemma_level_bump(
                        old(self).unhandled_admin_level@,
                        self.unhandled_admin_level@,
                        i as int,
                    );
                }
                return ;
            }
            i += 1;
        }
        proof {
            assert(self.unhandled_admin_level@.push(
                LevelCount { country, level, count: 1 },
            ).drop_last() =~= self.unhandled_admin_level@);
        }
        self.unhandled_admin_level.push(LevelCount { country, level, count: 1 });
    }

    /// How many zones of `country` found no table of rules.
    pub fn unknown_country_count(&self, country: &String) -> (r: usize)
        requires
            self.counted() <= usize::MAX,
        ensures
            r == self.unknown_country(country@),
    {
        let entries = &self.zone_with_unkwown_country_rules;
        let mut sum: usize = 0;
        let mut i: usize = 0;
        proof {
            assert(entries@.take(0) =~= Seq::<CountryCount>::empty());
        }
        while i < entries.len()
            invariant
                i <= entries.len(),
                entries == &self.zone_with_unkwown_country_rules,
                country_total(entries@) <= usize::MAX,
                sum == country_count(entries@.take(i as int), country@),
            decreases entries.len() - i,
        {
            proof {
                assert(entries@.take(i + 1).drop_last() =~= entries@.take(i as int));
                lemma_country_count_bounded(entries@.take(i + 1), country@);
                lemma_country_total_prefix(entries@, i + 1);
            }
            if entries[i].country == *country {
                sum = sum + entries[i].count;
            }
            i += 1;
        }
        proof {
            assert(entries@.take(entries.len() as int) =~= entries@);
        }
        sum
    }

    /// How many zones of `country` at `level` found no line in the table.
    pub fn unhandled_level_count(&self, country: &String, level: u32) -> (r: usize)
        requires
            self.counted() <= usize::MAX,
        ensures
            r == self.unhandled_level(country@, level),
    {
        let entries = &self.unhandled_admin_level;
        let mut sum: usize = 0;
        let mut i: usize = 0;
        proof {
            assert(entries@.take(0) =~= Seq::<LevelCount>::empty());
        }
        while i < entries.len()
            invariant
                i <= entries.len(),
                entries == &self.unhandled_admin_level,
                level_total(entries@) <= usize::MAX,
                sum == level_count(entries@.take(i as int), country@, level),
            decreases entries.len() - i,
        {
            proof {
                assert(entries@.take(i + 1).drop_last() =~= entries@.take(i as int));
                lemma_level_count_bounded(entries@.take(i + 1), country@, level);
                lemma_level_total_prefix(entries@, i + 1);
            }
            if entries[i].level == level && entries[i].country == *country {
                sum = sum + entries[i].count;
            }
            i += 1;
        }
        proof {
            assert(entries@.take(entries.len() as int) =~= entries@);
        }
        sum
    }
}

/// No country counts more than all the lines together.
proof fn lemma_country_count_bounded(entries: Seq<CountryCount>, country: Seq<char>)
    ensures
        country_count(entries, country) <= country_total(entries),
    decreases entries.len(),
{
    if entries.len() > 0 {
        lemma_country_count_bounded(entries.drop_last(), country);
    }
}

/// The first lines count no more than all the lines together.
proof fn lemma_country_total_prefix(entries: Seq<CountryCount>, upto: int)
    requires
        0 <= upto <= entries.len(),
    ensures
        country_total(entries.take(upto)) <= country_total(entries),
    decreases entries.len(),
{
    if upto < entries.len() {
        lemma_country_total_prefix(entries.drop_last(), upto);
        assert(entries.drop_last().take(upto) =~= entries.take(upto));
    } else {
        assert(entries.take(upto) =~= entries);
    }
}

/// No country and level count more than all the lines together.
proof fn lemma_level_count_bounded(entries: Seq<LevelCount>, country: Seq<char>, level: u32)
    ensures
        level_count(entries, country, level) <= level_total(entries),
    decreases entries.len(),
{
    if entries.len() > 0 {
        lemma_level_count_bounded(entries.drop_last(), country, level);
    }
}

/// The first lines count no more than all the lines together.
proof fn lemma_level_total_prefix(entries: Seq<LevelCount>, upto: int)
    requires
        0 <= upto <= entries.len(),
    ensures
        level_total(entries.take(upto)) <= level_total(entries),
    decreases entries.len(),
{
    if upto < entries.len() {
        lemma_level_total_prefix(entries.drop_last(), upto);
        assert(entries.drop_last().take(upto) =~= entries.take(upto));
    } else {
        assert(entries.take(upto) =~= entries);
    }
}

} // verus!
