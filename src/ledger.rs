//! The population ledger: individuals grouped by genome, with their counts.
use vstd::prelude::*;
use crate::agent::{Agent, genome_lt, lemma_genome_lt_total, lemma_genome_lt_trans};
use crate::types::AgentMetaData;
use crate::game::Game;

verus! {

/// The sum of a sequence of counts.
pub open spec fn count_sum(s: Seq<u32>) -> int
    decreases s.len(),
{
    if s.len() == 0 {
        0
    } else {
        count_sum(s.drop_last()) + s.last()
    }
}

/// How many individuals of `s` carry `genome`.
pub open spec fn genome_count(s: Seq<Agent>, genome: Seq<bool>) -> nat
    decreases s.len(),
{
    if s.len() == 0 {
        0
    } else {
        genome_count(s.drop_last(), genome) + (if s.last().genome@ == genome { 1nat } else { 0nat })
    }
}

/// The counts of a ledger, in its order.
pub open spec fn ledger_counts(l: Seq<(Agent, AgentMetaData)>) -> Seq<u32> {
    l.map_values(|e: (Agent, AgentMetaData)| e.1.count)
}

/// A ledger of a population of `n` individuals: well-formed individuals with
/// pairwise distinct genomes, each counted at least once and all out of `n`,
/// the counts adding up to `n` (so the shares `count / n` add up to one).
pub open spec fn ledger_wf(l: Seq<(Agent, AgentMetaData)>, n: nat) -> bool {
    &&& n <= u32::MAX
    &&& forall|k: int| 0 <= k < l.len() ==> (#[trigger] l[k]).0.wf() && l[k].1.count >= 1 && l[k].1.population == n
    &&& forall|a: int, b: int| 0 <= a < b < l.len() ==> (#[trigger] l[a]).0.genome@ != (#[trigger] l[b]).0.genome@
    &&& count_sum(ledger_counts(l)) == n
}

pub proof fn lemma_count_sum_update(s: Seq<u32>, j: int, v: u32)
    requires
        0 <= j < s.len(),
    ensures
        count_sum(s.update(j, v)) == count_sum(s) - s[j] + v,
    decreases s.len(),
{
    let t = s.update(j, v);
    if j == s.len() - 1 {
        assert(t.drop_last() == s.drop_last());
    } else {
        lemma_count_sum_update(s.drop_last(), j, v);
        assert(t.drop_last() == s.drop_last().update(j, v));
    }
}

pub proof fn lemma_count_sum_nonneg(s: Seq<u32>)
    ensures
        count_sum(s) >= 0,
    decreases s.len(),
{
    if s.len() > 0 {
        lemma_count_sum_nonneg(s.drop_last());
    }
}

/// The first position at or after `i` whose genome does not come before `g`.
pub open spec fn insert_pos_from(l: Seq<(Agent, AgentMetaData)>, g: Seq<bool>, i: nat) -> nat
    decreases l.len() - i,
{
    if i >= l.len() {
        l.len()
    } else if !genome_lt(l[i as int].0.genome@, g) {
        i
    } else {
        insert_pos_from(l, g, i + 1)
    }
}

/// A ledger of `n` individuals after one more individual is counted: its
/// genome's count grows by one, or, for a new genome, it takes its place in
/// bit order with count one.
pub open spec fn ledger_insert(l: Seq<(Agent, AgentMetaData)>, a: Agent, n: nat) -> Seq<(Agent, AgentMetaData)> {
    let p = insert_pos_from(l, a.genome@, 0) as int;
    if p < l.len() && l[p].0.genome@ == a.genome@ {
        l.update(p, (l[p].0, AgentMetaData { count: (l[p].1.count + 1) as u32, population: n as u32 }))
    } else {
        l.insert(p, (a, AgentMetaData { count: 1, population: n as u32 }))
    }
}

/// The ledger of the individuals of `s`, counted in turn, out of `n`.
pub open spec fn ledger_prefix(s: Seq<Agent>, n: nat) -> Seq<(Agent, AgentMetaData)>
    decreases s.len(),
{
    if s.len() == 0 {
        Seq::empty()
    } else {
        ledger_insert(ledger_prefix(s.drop_last(), n), s.last(), n)
    }
}

/// The ledger of a population: its distinct genomes in bit order, each
/// stood for by its first individual, with how many individuals carry it.
pub open spec fn ledger_of(s: Seq<Agent>) -> Seq<(Agent, AgentMetaData)> {
    ledger_prefix(s, s.len())
}

/// `a` is, as far as its view goes, one of the individuals of `s`.
pub open spec fn stands_for(a: Agent, s: Seq<Agent>) -> bool {
    exists|t: int| 0 <= t < s.len() && a@ == s[t]@
}

/// Some entry of the ledger carries `g`.
pub open spec fn has_genome(l: Seq<(Agent, AgentMetaData)>, g: Seq<bool>) -> bool {
    exists|k: int| 0 <= k < l.len() && l[k].0.genome@ == g
}

/// The genomes of a ledger strictly increase in bit order.
pub open spec fn ledger_sorted(l: Seq<(Agent, AgentMetaData)>) -> bool {
    forall|a: int, b: int| 0 <= a < b < l.len() ==> genome_lt((#[trigger] l[a]).0.genome@, (#[trigger] l[b]).0.genome@)
}

/// Two ledgers hold the same individuals (as far as their views, text and
/// history length go) with the same records.
pub open spec fn same_ledger(e: Seq<(Agent, AgentMetaData)>, l: Seq<(Agent, AgentMetaData)>) -> bool {
    &&& e.len() == l.len()
    &&& forall|k: int| 0 <= k < e.len() ==> (#[trigger] e[k]).0@ == l[k].0@ && e[k].0.id@ == l[k].0.id@
        && e[k].0.history_len == l[k].0.history_len && e[k].1 == l[k].1
}

/// Every entry is well formed, counted at least once, out of `n`.
#[verifier::opaque]
pub open spec fn lp_records(l: Seq<(Agent, AgentMetaData)>, n: nat) -> bool {
    forall|k: int| 0 <= k < l.len() ==> (#[trigger] l[k]).0.wf() && l[k].1.count >= 1 && l[k].1.population == n
}

/// Each entry counts the individuals of `s` that carry its genome.
#[verifier::opaque]
pub open spec fn lp_counts(l: Seq<(Agent, AgentMetaData)>, s: Seq<Agent>) -> bool {
    forall|k: int| 0 <= k < l.len() ==> (#[trigger] l[k]).1.count == genome_count(s, l[k].0.genome@)
}

/// Each entry is stood for by an individual of `s`.
#[verifier::opaque]
pub open spec fn lp_from(l: Seq<(Agent, AgentMetaData)>, s: Seq<Agent>) -> bool {
    forall|k: int| 0 <= k < l.len() ==> exists|t: int| 0 <= t < s.len() && (#[trigger] l[k]).0@ == s[t]@
        && l[k].0.id@ == s[t].id@ && l[k].0.history_len == s[t].history_len
}

/// Every genome of `s` has an entry.
#[verifier::opaque]
pub open spec fn lp_cover(l: Seq<(Agent, AgentMetaData)>, s: Seq<Agent>) -> bool {
    forall|t: int| 0 <= t < s.len() ==> exists|k: int| 0 <= k < l.len() && (#[trigger] l[k]).0.genome@ == (#[trigger] s[t]).genome@
}

/// The genomes strictly increase in bit order.
#[verifier::opaque]
pub open spec fn lp_sorted(l: Seq<(Agent, AgentMetaData)>) -> bool {
    ledger_sorted(l)
}

/// What a ledger of the individuals `s`, out of `n`, holds.
pub open spec fn ledger_props(l: Seq<(Agent, AgentMetaData)>, s: Seq<Agent>, n: nat) -> bool {
    &&& lp_sorted(l)
    &&& lp_records(l, n)
    &&& count_sum(ledger_counts(l)) == s.len()
    &&& lp_counts(l, s)
    &&& lp_from(l, s)
    &&& lp_cover(l, s)
}

/// Where a new genome goes, and what the entries around it hold.
pub open spec fn insert_at(l: Seq<(Agent, AgentMetaData)>, a: Agent, p: int) -> bool {
    &&& p == insert_pos_from(l, a.genome@, 0)
    &&& 0 <= p <= l.len()
    &&& forall|k: int| 0 <= k < p ==> genome_lt((#[trigger] l[k]).0.genome@, a.genome@)
    &&& p < l.len() ==> !genome_lt(l[p].0.genome@, a.genome@)
}

proof fn lemma_genome_count_push(s: Seq<Agent>, a: Agent, g: Seq<bool>)
    ensures
        genome_count(s.push(a), g) == genome_count(s, g) + (if a.genome@ == g { 1nat } else { 0nat }),
{
    assert(s.push(a).drop_last() == s);
}

proof fn lemma_genome_count_le(s: Seq<Agent>, g: Seq<bool>)
    ensures
        genome_count(s, g) <= s.len(),
    decreases s.len(),
{
    if s.len() > 0 {
        lemma_genome_count_le(s.drop_last(), g);
    }
}

proof fn lemma_count_sum_insert(s: Seq<u32>, p: int, v: u32)
    requires
        0 <= p <= s.len(),
    ensures
        count_sum(s.insert(p, v)) == count_sum(s) + v,
    decreases s.len(),
{
    let t = s.insert(p, v);
    s.insert_ensures(p, v);
    if p == s.len() {
        assert(t.drop_last() =~= s);
    } else {
        s.drop_last().insert_ensures(p, v);
        assert(t.drop_last() =~= s.drop_last().insert(p, v));
        lemma_count_sum_insert(s.drop_last(), p, v);
    }
}

proof fn lemma_insert_pos(l: Seq<(Agent, AgentMetaData)>, g: Seq<bool>, i: nat)
    requires
        i <= l.len(),
        forall|k: int| 0 <= k < i ==> genome_lt((#[trigger] l[k]).0.genome@, g),
    ensures
        i <= insert_pos_from(l, g, i) <= l.len(),
        forall|k: int| 0 <= k < insert_pos_from(l, g, i) ==> genome_lt((#[trigger] l[k]).0.genome@, g),
        insert_pos_from(l, g, i) < l.len() ==> !genome_lt(l[insert_pos_from(l, g, i) as int].0.genome@, g),
    decreases l.len() - i,
{
    if i < l.len() && genome_lt(l[i as int].0.genome@, g) {
        lemma_insert_pos(l, g, i + 1);
    }
}

/// Counting one more individual keeps what a ledger holds.
proof fn lemma_insert_step(l: Seq<(Agent, AgentMetaData)>, s: Seq<Agent>, a: Agent, n: nat)
    requires
        ledger_props(l, s, n),
        a.wf(),
        s.len() + 1 <= n <= u32::MAX,
    ensures
        ledger_props(ledger_insert(l, a, n), s.push(a), n),
{
    lemma_insert_pos(l, a.genome@, 0);
    let p = insert_pos_from(l, a.genome@, 0) as int;
    let l2 = ledger_insert(l, a, n);
    lemma_distinct_from_new(l, a, p);
    if p < l.len() && l[p].0.genome@ == a.genome@ {
        let c = l[p].1.count;
        proof_count_le(l, s, p);
        lemma_count_sum_update(ledger_counts(l), p, (c + 1) as u32);
        assert(ledger_counts(l2) =~= ledger_counts(l).update(p, (c + 1) as u32));
        lemma_found_sorted(l, s, a, n, p);
        lemma_found_records(l, s, a, n, p);
        lemma_found_counts(l, s, a, n, p);
        lemma_found_from(l, s, a, n, p);
        lemma_found_cover(l, s, a, n, p);
    } else {
        let e = (a, AgentMetaData { count: 1, population: n as u32 });
        l.insert_ensures(p, e);
        assert(l2 == l.insert(p, e));
        assert forall|k: int| 0 <= k < l2.len() implies #[trigger] ledger_counts(l2)[k] == ledger_counts(l).insert(p, 1)[k] by {
            ledger_counts(l).insert_ensures(p, 1);
            if k > p {
                assert(l2[(k - 1) + 1] == l[k - 1]);
            }
        }
        assert(ledger_counts(l2) =~= ledger_counts(l).insert(p, 1));
        lemma_count_sum_insert(ledger_counts(l), p, 1);
        lemma_new_sorted(l, s, a, n, p);
        lemma_new_records(l, s, a, n, p);
        lemma_new_counts(l, s, a, n, p);
        lemma_new_from(l, s, a, n, p);
        lemma_new_cover(l, s, a, n, p);
    }
}

proof fn lemma_found_sorted(l: Seq<(Agent, AgentMetaData)>, s: Seq<Agent>, a: Agent, n: nat, p: int)
    requires
        ledger_props(l, s, n),
        a.wf(),
        s.len() + 1 <= n <= u32::MAX,
        insert_at(l, a, p),
        forall|k: int| 0 <= k < l.len() && k != p ==> (#[trigger] l[k]).0.genome@ != a.genome@,
        !(p < l.len() && l[p].0.genome@ == a.genome@) ==> forall|k: int| p <= k < l.len() ==> genome_lt(a.genome@, (#[trigger] l[k]).0.genome@),
        p < l.len() && l[p].0.genome@ == a.genome@,
        l[p].1.count <= s.len(),
    ensures
        lp_sorted(ledger_insert(l, a, n)),
{
    let l2 = ledger_insert(l, a, n);
    let s2 = s.push(a);
    assert(s2[s.len() as int] == a);
    assert forall|t: int| 0 <= t < s.len() implies s2[t] == s[t] by {}
        reveal(lp_sorted);
        assert forall|x: int, y: int| 0 <= x < y < l2.len() implies genome_lt((#[trigger] l2[x]).0.genome@, (#[trigger] l2[y]).0.genome@) by {
            assert(l2[x].0 == l[x].0 && l2[y].0 == l[y].0);
        }
    }

proof fn lemma_found_records(l: Seq<(Agent, AgentMetaData)>, s: Seq<Agent>, a: Agent, n: nat, p: int)
    requires
        ledger_props(l, s, n),
        a.wf(),
        s.len() + 1 <= n <= u32::MAX,
        insert_at(l, a, p),
        forall|k: int| 0 <= k < l.len() && k != p ==> (#[trigger] l[k]).0.genome@ != a.genome@,
        !(p < l.len() && l[p].0.genome@ == a.genome@) ==> forall|k: int| p <= k < l.len() ==> genome_lt(a.genome@, (#[trigger] l[k]).0.genome@),
        p < l.len() && l[p].0.genome@ == a.genome@,
        l[p].1.count <= s.len(),
    ensures
        lp_records(ledger_insert(l, a, n), n),
{
    let l2 = ledger_insert(l, a, n);
    let s2 = s.push(a);
    assert(s2[s.len() as int] == a);
    assert forall|t: int| 0 <= t < s.len() implies s2[t] == s[t] by {}
        reveal(lp_records);
        assert forall|k: int| 0 <= k < l2.len() implies (#[trigger] l2[k]).0.wf() && l2[k].1.count >= 1 && l2[k].1.population == n by {
            assert(l[k].0.wf());
        }
    }

proof fn lemma_found_counts(l: Seq<(Agent, AgentMetaData)>, s: Seq<Agent>, a: Agent, n: nat, p: int)
    requires
        ledger_props(l, s, n),
        a.wf(),
        s.len() + 1 <= n <= u32::MAX,
        insert_at(l, a, p),
        forall|k: int| 0 <= k < l.len() && k != p ==> (#[trigger] l[k]).0.genome@ != a.genome@,
        !(p < l.len() && l[p].0.genome@ == a.genome@) ==> forall|k: int| p <= k < l.len() ==> genome_lt(a.genome@, (#[trigger] l[k]).0.genome@),
        p < l.len() && l[p].0.genome@ == a.genome@,
        l[p].1.count <= s.len(),
    ensures
        lp_counts(ledger_insert(l, a, n), s.push(a)),
{
    let l2 = ledger_insert(l, a, n);
    let s2 = s.push(a);
    assert(s2[s.len() as int] == a);
    assert forall|t: int| 0 <= t < s.len() implies s2[t] == s[t] by {}
        reveal(lp_counts);
        assert forall|k: int| 0 <= k < l2.len() implies (#[trigger] l2[k]).1.count == genome_count(s2, l2[k].0.genome@) by {
            lemma_genome_count_push(s, a, l[k].0.genome@);
            if k == p {
                assert(l2[k].0 == l[k].0);
                assert(l2[k].1.count == l[k].1.count + 1);
            }
            if k != p {
                assert(l2[k] == l[k]);
                assert(l[k].0.genome@ != a.genome@);
            }
        }
    }

proof fn lemma_found_from(l: Seq<(Agent, AgentMetaData)>, s: Seq<Agent>, a: Agent, n: nat, p: int)
    requires
        ledger_props(l, s, n),
        a.wf(),
        s.len() + 1 <= n <= u32::MAX,
        insert_at(l, a, p),
        forall|k: int| 0 <= k < l.len() && k != p ==> (#[trigger] l[k]).0.genome@ != a.genome@,
        !(p < l.len() && l[p].0.genome@ == a.genome@) ==> forall|k: int| p <= k < l.len() ==> genome_lt(a.genome@, (#[trigger] l[k]).0.genome@),
        p < l.len() && l[p].0.genome@ == a.genome@,
        l[p].1.count <= s.len(),
    ensures
        lp_from(ledger_insert(l, a, n), s.push(a)),
{
    let l2 = ledger_insert(l, a, n);
    let s2 = s.push(a);
    assert(s2[s.len() as int] == a);
    assert forall|t: int| 0 <= t < s.len() implies s2[t] == s[t] by {}
        reveal(lp_from);
        assert forall|k: int| 0 <= k < l2.len() implies exists|t: int| 0 <= t < s2.len() && (#[trigger] l2[k]).0@ == s2[t]@
            && l2[k].0.id@ == s2[t].id@ && l2[k].0.history_len == s2[t].history_len by {
            assert(l2[k].0 == l[k].0);
            let t = choose|t: int| 0 <= t < s.len() && (#[trigger] l[k]).0@ == s[t]@
                && l[k].0.id@ == s[t].id@ && l[k].0.history_len == s[t].history_len;
            assert(s2[t] == s[t]);
        }
    }

proof fn lemma_found_cover(l: Seq<(Agent, AgentMetaData)>, s: Seq<Agent>, a: Agent, n: nat, p: int)
    requires
        ledger_props(l, s, n),
        a.wf(),
        s.len() + 1 <= n <= u32::MAX,
        insert_at(l, a, p),
        forall|k: int| 0 <= k < l.len() && k != p ==> (#[trigger] l[k]).0.genome@ != a.genome@,
        !(p < l.len() && l[p].0.genome@ == a.genome@) ==> forall|k: int| p <= k < l.len() ==> genome_lt(a.genome@, (#[trigger] l[k]).0.genome@),
        p < l.len() && l[p].0.genome@ == a.genome@,
        l[p].1.count <= s.len(),
    ensures
        lp_cover(ledger_insert(l, a, n), s.push(a)),
{
    let l2 = ledger_insert(l, a, n);
    let s2 = s.push(a);
    assert(s2[s.len() as int] == a);
    assert forall|t: int| 0 <= t < s.len() implies s2[t] == s[t] by {}
        reveal(lp_cover);
        assert forall|t: int| 0 <= t < s2.len() implies exists|k: int| 0 <= k < l2.len() && (#[trigger] l2[k]).0.genome@ == (#[trigger] s2[t]).genome@ by {
            if t < s.len() {
                let k = choose|k: int| 0 <= k < l.len() && (#[trigger] l[k]).0.genome@ == s[t].genome@;
                assert(l2[k].0 == l[k].0);
            } else {
                assert(l2[p].0.genome@ == s2[t].genome@);
            }
        }
    }

proof fn lemma_new_sorted(l: Seq<(Agent, AgentMetaData)>, s: Seq<Agent>, a: Agent, n: nat, p: int)
    requires
        ledger_props(l, s, n),
        a.wf(),
        s.len() + 1 <= n <= u32::MAX,
        insert_at(l, a, p),
        forall|k: int| 0 <= k < l.len() && k != p ==> (#[trigger] l[k]).0.genome@ != a.genome@,
        !(p < l.len() && l[p].0.genome@ == a.genome@) ==> forall|k: int| p <= k < l.len() ==> genome_lt(a.genome@, (#[trigger] l[k]).0.genome@),
        !(p < l.len() && l[p].0.genome@ == a.genome@),
    ensures
        lp_sorted(ledger_insert(l, a, n)),
{
    let l2 = ledger_insert(l, a, n);
    let s2 = s.push(a);
    assert(s2[s.len() as int] == a);
    assert forall|t: int| 0 <= t < s.len() implies s2[t] == s[t] by {}
    let e = (a, AgentMetaData { count: 1, population: n as u32 });
    l.insert_ensures(p, e);
    assert(l2 == l.insert(p, e));
    assert forall|k: int| 0 <= k < l2.len() implies #[trigger] l2[k] == (if k < p { l[k] } else if k == p { e } else { l[k - 1] }) by {
        if k > p {
            assert(l2[(k - 1) + 1] == l[k - 1]);
        }
    }
        reveal(lp_sorted);
        assert forall|x: int, y: int| 0 <= x < y < l2.len() implies genome_lt((#[trigger] l2[x]).0.genome@, (#[trigger] l2[y]).0.genome@) by {
            if y > p && x < p {
                lemma_genome_lt_trans(l[x].0.genome@, a.genome@, l[y - 1].0.genome@);
            } else if y > p && x > p {
                assert(genome_lt(l[x - 1].0.genome@, l[y - 1].0.genome@));
            } else if y < p {
                assert(genome_lt(l[x].0.genome@, l[y].0.genome@));
            }
        }
    }

proof fn lemma_new_records(l: Seq<(Agent, AgentMetaData)>, s: Seq<Agent>, a: Agent, n: nat, p: int)
    requires
        ledger_props(l, s, n),
        a.wf(),
        s.len() + 1 <= n <= u32::MAX,
        insert_at(l, a, p),
        forall|k: int| 0 <= k < l.len() && k != p ==> (#[trigger] l[k]).0.genome@ != a.genome@,
        !(p < l.len() && l[p].0.genome@ == a.genome@) ==> forall|k: int| p <= k < l.len() ==> genome_lt(a.genome@, (#[trigger] l[k]).0.genome@),
        !(p < l.len() && l[p].0.genome@ == a.genome@),
    ensures
        lp_records(ledger_insert(l, a, n), n),
{
    let l2 = ledger_insert(l, a, n);
    let s2 = s.push(a);
    assert(s2[s.len() as int] == a);
    assert forall|t: int| 0 <= t < s.len() implies s2[t] == s[t] by {}
    let e = (a, AgentMetaData { count: 1, population: n as u32 });
    l.insert_ensures(p, e);
    assert(l2 == l.insert(p, e));
    assert forall|k: int| 0 <= k < l2.len() implies #[trigger] l2[k] == (if k < p { l[k] } else if k == p { e } else { l[k - 1] }) by {
        if k > p {
            assert(l2[(k - 1) + 1] == l[k - 1]);
        }
    }
        reveal(lp_records);
        assert forall|k: int| 0 <= k < l2.len() implies (#[trigger] l2[k]).0.wf() && l2[k].1.count >= 1 && l2[k].1.population == n by {
            if k < p {
                assert(l[k].0.wf());
            } else if k > p {
                assert(l[k - 1].0.wf());
            }
        }
    }

proof fn lemma_new_counts(l: Seq<(Agent, AgentMetaData)>, s: Seq<Agent>, a: Agent, n: nat, p: int)
    requires
        ledger_props(l, s, n),
        a.wf(),
        s.len() + 1 <= n <= u32::MAX,
        insert_at(l, a, p),
        forall|k: int| 0 <= k < l.len() && k != p ==> (#[trigger] l[k]).0.genome@ != a.genome@,
        !(p < l.len() && l[p].0.genome@ == a.genome@) ==> forall|k: int| p <= k < l.len() ==> genome_lt(a.genome@, (#[trigger] l[k]).0.genome@),
        !(p < l.len() && l[p].0.genome@ == a.genome@),
    ensures
        lp_counts(ledger_insert(l, a, n), s.push(a)),
{
    let l2 = ledger_insert(l, a, n);
    let s2 = s.push(a);
    assert(s2[s.len() as int] == a);
    assert forall|t: int| 0 <= t < s.len() implies s2[t] == s[t] by {}
    let e = (a, AgentMetaData { count: 1, population: n as u32 });
    l.insert_ensures(p, e);
    assert(l2 == l.insert(p, e));
    assert forall|k: int| 0 <= k < l2.len() implies #[trigger] l2[k] == (if k < p { l[k] } else if k == p { e } else { l[k - 1] }) by {
        if k > p {
            assert(l2[(k - 1) + 1] == l[k - 1]);
        }
    }
    assert(genome_count(s, a.genome@) == 0) by {
        reveal(lp_cover);
        lemma_genome_count_missing(l, s, a.genome@);
    }
        reveal(lp_counts);
        assert forall|k: int| 0 <= k < l2.len() implies (#[trigger] l2[k]).1.count == genome_count(s2, l2[k].0.genome@) by {
            lemma_genome_count_push(s, a, l2[k].0.genome@);
            if k < p {
                assert(l[k].0.genome@ != a.genome@);
            } else if k > p {
                assert(l[k - 1].0.genome@ != a.genome@);
            }
        }
    }

#[verifier::rlimit(60)]
proof fn lemma_new_from(l: Seq<(Agent, AgentMetaData)>, s: Seq<Agent>, a: Agent, n: nat, p: int)
    requires
        ledger_props(l, s, n),
        a.wf(),
        s.len() + 1 <= n <= u32::MAX,
        insert_at(l, a, p),
        forall|k: int| 0 <= k < l.len() && k != p ==> (#[trigger] l[k]).0.genome@ != a.genome@,
        !(p < l.len() && l[p].0.genome@ == a.genome@) ==> forall|k: int| p <= k < l.len() ==> genome_lt(a.genome@, (#[trigger] l[k]).0.genome@),
        !(p < l.len() && l[p].0.genome@ == a.genome@),
    ensures
        lp_from(ledger_insert(l, a, n), s.push(a)),
{
    let l2 = ledger_insert(l, a, n);
    let s2 = s.push(a);
    assert(s2[s.len() as int] == a);
    assert forall|t: int| 0 <= t < s.len() implies s2[t] == s[t] by {}
    let e = (a, AgentMetaData { count: 1, population: n as u32 });
    l.insert_ensures(p, e);
    assert(l2 == l.insert(p, e));
    assert forall|k: int| 0 <= k < l2.len() implies #[trigger] l2[k] == (if k < p { l[k] } else if k == p { e } else { l[k - 1] }) by {
        if k > p {
            assert(l2[(k - 1) + 1] == l[k - 1]);
        }
    }
        reveal(lp_from);
        assert forall|k: int| 0 <= k < l2.len() implies exists|t: int| 0 <= t < s2.len() && (#[trigger] l2[k]).0@ == s2[t]@
            && l2[k].0.id@ == s2[t].id@ && l2[k].0.history_len == s2[t].history_len by {
            if k == p {
                assert(l2[k].0 == s2[s.len() as int]);
            } else {
                let j = if k < p { k } else { k - 1 };
                assert(l2[k] == l[j]);
                let t = choose|t: int| 0 <= t < s.len() && (#[trigger] l[j]).0@ == s[t]@
                    && l[j].0.id@ == s[t].id@ && l[j].0.history_len == s[t].history_len;
                assert(s2[t] == s[t]);
            }
        }
    }

proof fn lemma_new_cover(l: Seq<(Agent, AgentMetaData)>, s: Seq<Agent>, a: Agent, n: nat, p: int)
    requires
        ledger_props(l, s, n),
        a.wf(),
        s.len() + 1 <= n <= u32::MAX,
        insert_at(l, a, p),
        forall|k: int| 0 <= k < l.len() && k != p ==> (#[trigger] l[k]).0.genome@ != a.genome@,
        !(p < l.len() && l[p].0.genome@ == a.genome@) ==> forall|k: int| p <= k < l.len() ==> genome_lt(a.genome@, (#[trigger] l[k]).0.genome@),
        !(p < l.len() && l[p].0.genome@ == a.genome@),
    ensures
        lp_cover(ledger_insert(l, a, n), s.push(a)),
{
    let l2 = ledger_insert(l, a, n);
    let s2 = s.push(a);
    assert(s2[s.len() as int] == a);
    assert forall|t: int| 0 <= t < s.len() implies s2[t] == s[t] by {}
    let e = (a, AgentMetaData { count: 1, population: n as u32 });
    l.insert_ensures(p, e);
    assert(l2 == l.insert(p, e));
    assert forall|k: int| 0 <= k < l2.len() implies #[trigger] l2[k] == (if k < p { l[k] } else if k == p { e } else { l[k - 1] }) by {
        if k > p {
            assert(l2[(k - 1) + 1] == l[k - 1]);
        }
    }
        reveal(lp_cover);
        assert forall|t: int| 0 <= t < s2.len() implies exists|k: int| 0 <= k < l2.len() && (#[trigger] l2[k]).0.genome@ == (#[trigger] s2[t]).genome@ by {
            if t < s.len() {
                let k = choose|k: int| 0 <= k < l.len() && (#[trigger] l[k]).0.genome@ == s[t].genome@;
                if k < p {
                    assert(l2[k] == l[k]);
                } else {
                    assert(l2[k + 1] == l[k]);
                }
            } else {
                assert(l2[p].0.genome@ == s2[t].genome@);
            }
        }
    }

/// In a sorted ledger every entry other than the insertion point's differs
/// from the new genome, and those past it come after it.
proof fn lemma_distinct_from_new(l: Seq<(Agent, AgentMetaData)>, a: Agent, p: int)
    requires
        lp_sorted(l),
        insert_at(l, a, p),
    ensures
        forall|k: int| 0 <= k < l.len() && k != p ==> (#[trigger] l[k]).0.genome@ != a.genome@,
        !(p < l.len() && l[p].0.genome@ == a.genome@) ==> forall|k: int| p <= k < l.len() ==> genome_lt(a.genome@, (#[trigger] l[k]).0.genome@),
{
    reveal(lp_sorted);
    let g = a.genome@;
    assert forall|k: int| 0 <= k < l.len() && k != p implies (#[trigger] l[k]).0.genome@ != g by {
        lemma_genome_lt_total(l[k].0.genome@, g);
        if k > p {
            assert(genome_lt(l[p].0.genome@, l[k].0.genome@));
            lemma_genome_lt_total(l[p].0.genome@, g);
            if l[p].0.genome@ != g {
                lemma_genome_lt_trans(g, l[p].0.genome@, l[k].0.genome@);
            }
        }
    }
    if !(p < l.len() && l[p].0.genome@ == g) {
        assert forall|k: int| p <= k < l.len() implies genome_lt(g, (#[trigger] l[k]).0.genome@) by {
            lemma_genome_lt_total(l[p].0.genome@, g);
            if k > p {
                assert(genome_lt(l[p].0.genome@, l[k].0.genome@));
                lemma_genome_lt_trans(g, l[p].0.genome@, l[k].0.genome@);
            }
        }
    }
}

/// A count never exceeds the population counted.
proof fn proof_count_le(l: Seq<(Agent, AgentMetaData)>, s: Seq<Agent>, k: int)
    requires
        lp_counts(l, s),
        0 <= k < l.len(),
    ensures
        l[k].1.count <= s.len(),
{
    reveal(lp_counts);
    lemma_genome_count_le(s, l[k].0.genome@);
}

/// A genome that no entry of a ledger carries occurs nowhere in the
/// population the ledger counts.
proof fn lemma_genome_count_missing(l: Seq<(Agent, AgentMetaData)>, s: Seq<Agent>, g: Seq<bool>)
    requires
        forall|t: int| 0 <= t < s.len() ==> exists|k: int| 0 <= k < l.len() && (#[trigger] l[k]).0.genome@ == (#[trigger] s[t]).genome@,
        forall|k: int| 0 <= k < l.len() ==> (#[trigger] l[k]).0.genome@ != g,
    ensures
        genome_count(s, g) == 0,
    decreases s.len(),
{
    if s.len() > 0 {
        let r = s.drop_last();
        assert forall|t: int| 0 <= t < r.len() implies exists|k: int| 0 <= k < l.len() && (#[trigger] l[k]).0.genome@ == (#[trigger] r[t]).genome@ by {
            assert(r[t] == s[t]);
        }
        let k = choose|k: int| 0 <= k < l.len() && (#[trigger] l[k]).0.genome@ == s[s.len() - 1].genome@;
        lemma_genome_count_missing(l, r, g);
    }
}

/// The ledger of a population holds what a ledger holds.
pub proof fn lemma_ledger_prefix(s: Seq<Agent>, n: nat)
    requires
        s.len() <= n <= u32::MAX,
        forall|t: int| 0 <= t < s.len() ==> (#[trigger] s[t]).wf(),
    ensures
        ledger_props(ledger_prefix(s, n), s, n),
    decreases s.len(),
{
    if s.len() > 0 {
        let r = s.drop_last();
        assert forall|t: int| 0 <= t < r.len() implies (#[trigger] r[t]).wf() by {
            assert(r[t] == s[t]);
        }
        lemma_ledger_prefix(r, n);
        assert(s[s.len() - 1].wf());
        lemma_insert_step(ledger_prefix(r, n), r, s.last(), n);
        assert(r.push(s.last()) == s);
    } else {
        assert(ledger_counts(ledger_prefix(s, n)) =~= Seq::<u32>::empty());
        reveal(lp_sorted);
        reveal(lp_records);
        reveal(lp_counts);
        reveal(lp_from);
        reveal(lp_cover);
    }
}

proof fn lemma_transfer_order(e: Seq<(Agent, AgentMetaData)>, l: Seq<(Agent, AgentMetaData)>)
    requires
        same_ledger(e, l),
        lp_sorted(l),
    ensures
        ledger_sorted(e),
        forall|a: int, b: int| 0 <= a < b < e.len() ==> (#[trigger] e[a]).0.genome@ != (#[trigger] e[b]).0.genome@,
{
    reveal(lp_sorted);
    assert forall|a: int, b: int| 0 <= a < b < e.len() implies genome_lt((#[trigger] e[a]).0.genome@, (#[trigger] e[b]).0.genome@) by {
        assert(genome_lt(l[a].0.genome@, l[b].0.genome@));
    }
    assert forall|a: int, b: int| 0 <= a < b < e.len() implies (#[trigger] e[a]).0.genome@ != (#[trigger] e[b]).0.genome@ by {
        assert(genome_lt(e[a].0.genome@, e[b].0.genome@));
        lemma_genome_lt_total(e[a].0.genome@, e[b].0.genome@);
    }
}

proof fn lemma_transfer_records(e: Seq<(Agent, AgentMetaData)>, l: Seq<(Agent, AgentMetaData)>, s: Seq<Agent>, n: nat)
    requires
        same_ledger(e, l),
        lp_records(l, n),
        lp_counts(l, s),
    ensures
        forall|k: int| 0 <= k < e.len() ==> (#[trigger] e[k]).0.wf() && e[k].1.count >= 1 && e[k].1.population == n,
        forall|k: int| 0 <= k < e.len() ==> (#[trigger] e[k]).1.count == genome_count(s, e[k].0.genome@),
        ledger_counts(e) == ledger_counts(l),
{
    reveal(lp_records);
    reveal(lp_counts);
    assert forall|k: int| 0 <= k < e.len() implies (#[trigger] e[k]).0.wf() && e[k].1.count >= 1 && e[k].1.population == n by {
        assert(l[k].0.wf());
    }
    assert forall|k: int| 0 <= k < e.len() implies (#[trigger] e[k]).1.count == genome_count(s, e[k].0.genome@) by {
        assert(l[k].1.count == genome_count(s, l[k].0.genome@));
    }
    assert(ledger_counts(e) =~= ledger_counts(l));
}

proof fn lemma_transfer_witnesses(e: Seq<(Agent, AgentMetaData)>, l: Seq<(Agent, AgentMetaData)>, s: Seq<Agent>)
    requires
        same_ledger(e, l),
        lp_from(l, s),
        lp_cover(l, s),
    ensures
        forall|k: int| 0 <= k < e.len() ==> stands_for((#[trigger] e[k]).0, s),
        forall|t: int| 0 <= t < s.len() ==> has_genome(e, (#[trigger] s[t]).genome@),
{
    reveal(lp_from);
    reveal(lp_cover);
    assert forall|k: int| 0 <= k < e.len() implies stands_for((#[trigger] e[k]).0, s) by {
        let t = choose|t: int| 0 <= t < s.len() && (#[trigger] l[k]).0@ == s[t]@
            && l[k].0.id@ == s[t].id@ && l[k].0.history_len == s[t].history_len;
        assert(e[k].0@ == s[t]@);
    }
    assert forall|t: int| 0 <= t < s.len() implies has_genome(e, (#[trigger] s[t]).genome@) by {
        let k = choose|k: int| 0 <= k < l.len() && (#[trigger] l[k]).0.genome@ == s[t].genome@;
        assert(e[k].0.genome@ == l[k].0.genome@);
    }
}

/// Two ledgers whose genomes strictly increase in bit order and which hold
/// the same genomes hold them at the same positions.
pub proof fn lemma_sorted_unique(l1: Seq<(Agent, AgentMetaData)>, l2: Seq<(Agent, AgentMetaData)>)
    requires
        ledger_sorted(l1),
        ledger_sorted(l2),
        forall|k: int| 0 <= k < l1.len() ==> has_genome(l2, (#[trigger] l1[k]).0.genome@),
        forall|k: int| 0 <= k < l2.len() ==> has_genome(l1, (#[trigger] l2[k]).0.genome@),
    ensures
        l1.len() == l2.len(),
        forall|k: int| 0 <= k < l1.len() ==> (#[trigger] l1[k]).0.genome@ == l2[k].0.genome@,
    decreases l1.len(),
{
    if l1.len() == 0 || l2.len() == 0 {
        if l1.len() > 0 {
            assert(has_genome(l2, l1[0].0.genome@));
        }
        if l2.len() > 0 {
            assert(has_genome(l1, l2[0].0.genome@));
        }
    } else {
        let (a, b) = (l1[0].0.genome@, l2[0].0.genome@);
        // the first entries are the smallest genomes of each, so they agree
        assert(has_genome(l2, a));
        let j = choose|j: int| 0 <= j < l2.len() && l2[j].0.genome@ == a;
        assert(has_genome(l1, b));
        let i = choose|i: int| 0 <= i < l1.len() && l1[i].0.genome@ == b;
        if a != b {
            assert(j > 0);
            assert(genome_lt(b, a)) by {
                assert(genome_lt(l2[0].0.genome@, l2[j].0.genome@));
            }
            assert(i > 0);
            assert(genome_lt(a, b)) by {
                assert(genome_lt(l1[0].0.genome@, l1[i].0.genome@));
            }
            lemma_genome_lt_total(a, b);
        }
        let (r1, r2) = (l1.drop_first(), l2.drop_first());
        assert forall|x: int, y: int| 0 <= x < y < r1.len() implies genome_lt((#[trigger] r1[x]).0.genome@, (#[trigger] r1[y]).0.genome@) by {
            assert(genome_lt(l1[x + 1].0.genome@, l1[y + 1].0.genome@));
        }
        assert forall|x: int, y: int| 0 <= x < y < r2.len() implies genome_lt((#[trigger] r2[x]).0.genome@, (#[trigger] r2[y]).0.genome@) by {
            assert(genome_lt(l2[x + 1].0.genome@, l2[y + 1].0.genome@));
        }
        assert forall|k: int| 0 <= k < r1.len() implies has_genome(r2, (#[trigger] r1[k]).0.genome@) by {
            let g = l1[k + 1].0.genome@;
            assert(genome_lt(a, g));
            lemma_genome_lt_total(a, a);
            assert(has_genome(l2, g));
            let m = choose|m: int| 0 <= m < l2.len() && l2[m].0.genome@ == g;
            assert(m != 0);
            assert(r2[m - 1].0.genome@ == g);
        }
        assert forall|k: int| 0 <= k < r2.len() implies has_genome(r1, (#[trigger] r2[k]).0.genome@) by {
            let g = l2[k + 1].0.genome@;
            assert(genome_lt(b, g));
            lemma_genome_lt_total(b, b);
            assert(has_genome(l1, g));
            let m = choose|m: int| 0 <= m < l1.len() && l1[m].0.genome@ == g;
            assert(m != 0);
            assert(r1[m - 1].0.genome@ == g);
        }
        lemma_sorted_unique(r1, r2);
        assert forall|k: int| 0 <= k < l1.len() implies (#[trigger] l1[k]).0.genome@ == l2[k].0.genome@ by {
            if k > 0 {
                assert(r1[k - 1].0.genome@ == r2[k - 1].0.genome@);
            }
        }
    }
}

proof fn lemma_genome_count_positive(s: Seq<Agent>, g: Seq<bool>)
    requires
        genome_count(s, g) > 0,
    ensures
        exists|t: int| 0 <= t < s.len() && s[t].genome@ == g,
    decreases s.len(),
{
    if s.last().genome@ != g {
        lemma_genome_count_positive(s.drop_last(), g);
        let t = choose|t: int| 0 <= t < s.drop_last().len() && s.drop_last()[t].genome@ == g;
        assert(s[t] == s.drop_last()[t]);
    } else {
        assert(s[s.len() - 1].genome@ == g);
    }
}

/// The ledger does not depend on the order of the individuals: two
/// populations in which every genome is carried equally often have ledgers
/// with the same genomes, in the same order, with the same counts.
pub proof fn lemma_ledger_order_free(s1: Seq<Agent>, s2: Seq<Agent>)
    requires
        s1.len() == s2.len() <= u32::MAX,
        forall|t: int| 0 <= t < s1.len() ==> (#[trigger] s1[t]).wf(),
        forall|t: int| 0 <= t < s2.len() ==> (#[trigger] s2[t]).wf(),
        forall|g: Seq<bool>| #[trigger] genome_count(s1, g) == genome_count(s2, g),
    ensures
        ledger_of(s1).len() == ledger_of(s2).len(),
        forall|k: int| 0 <= k < ledger_of(s1).len() ==> (#[trigger] ledger_of(s1)[k]).0.genome@ == ledger_of(s2)[k].0.genome@
            && ledger_of(s1)[k].1 == ledger_of(s2)[k].1,
{
    let (l1, l2) = (ledger_of(s1), ledger_of(s2));
    lemma_ledger_prefix(s1, s1.len());
    lemma_ledger_prefix(s2, s2.len());
    reveal(lp_sorted);
    reveal(lp_records);
    reveal(lp_counts);
    reveal(lp_cover);
    assert forall|k: int| 0 <= k < l1.len() implies has_genome(l2, (#[trigger] l1[k]).0.genome@) by {
        let g = l1[k].0.genome@;
        assert(genome_count(s2, g) > 0);
        lemma_genome_count_positive(s2, g);
        let t = choose|t: int| 0 <= t < s2.len() && s2[t].genome@ == g;
        let m = choose|m: int| 0 <= m < l2.len() && (#[trigger] l2[m]).0.genome@ == s2[t].genome@;
    }
    assert forall|k: int| 0 <= k < l2.len() implies has_genome(l1, (#[trigger] l2[k]).0.genome@) by {
        let g = l2[k].0.genome@;
        assert(genome_count(s1, g) > 0);
        lemma_genome_count_positive(s1, g);
        let t = choose|t: int| 0 <= t < s1.len() && s1[t].genome@ == g;
        let m = choose|m: int| 0 <= m < l1.len() && (#[trigger] l1[m]).0.genome@ == s1[t].genome@;
    }
    lemma_sorted_unique(l1, l2);
    assert forall|k: int| 0 <= k < l1.len() implies (#[trigger] l1[k]).0.genome@ == l2[k].0.genome@ && l1[k].1 == l2[k].1 by {
        assert(l1[k].0.genome@ == l2[k].0.genome@);
        assert(genome_count(s1, l1[k].0.genome@) == genome_count(s2, l2[k].0.genome@));
    }
}

impl Game {
    /// Groups individuals by genome, in bit order of the genomes, counting
    /// the individuals that carry each; the first individual of a genome
    /// stands for it.
    #[verifier::rlimit(60)]
    pub fn agents_to_hashmap(agents: &Vec<Agent>) -> (r: Vec<(Agent, AgentMetaData)>)
        requires
            agents@.len() <= u32::MAX,
            forall|t: int| 0 <= t < agents@.len() ==> (#[trigger] agents@[t]).wf(),
        ensures
            same_ledger(r@, ledger_of(agents@)),
            ledger_wf(r@, agents@.len()),
            ledger_sorted(r@),
            forall|k: int| 0 <= k < r@.len() ==> (#[trigger] r@[k]).1.count == genome_count(agents@, r@[k].0.genome@),
            forall|k: int| 0 <= k < r@.len() ==> stands_for((#[trigger] r@[k]).0, agents@),
            forall|t: int| 0 <= t < agents@.len() ==> has_genome(r@, (#[trigger] agents@[t]).genome@),
    {
        let n = agents.len();
        let mut entries: Vec<(Agent, AgentMetaData)> = Vec::new();
        let mut i: usize = 0;
        while i < n
            invariant
                n == agents@.len() <= u32::MAX,
                i <= n,
                forall|t: int| 0 <= t < agents@.len() ==> (#[trigger] agents@[t]).wf(),
                same_ledger(entries@, ledger_prefix(agents@.take(i as int), n as nat)),
            decreases n - i,
        {
            let ghost s = agents@.take(i as int);
            let ghost l = ledger_prefix(s, n as nat);
            proof {
                assert forall|t: int| 0 <= t < s.len() implies (#[trigger] s[t]).wf() by {
                    assert(s[t] == agents@[t]);
                }
                lemma_ledger_prefix(s, n as nat);
                assert(agents@.take(i + 1).drop_last() == s);
            }
            let agent = &agents[i];
            let ghost g = agent.genome@;
            let mut p: usize = 0;
            while p < entries.len() && entries[p].0.genome_before(agent)
                invariant
                    same_ledger(entries@, l),
                    p <= entries@.len(),
                    g == agent.genome@,
                    insert_pos_from(l, g, 0) == insert_pos_from(l, g, p as nat),
                decreases entries@.len() - p,
            {
                p = p + 1;
            }
            if p < entries.len() && entries[p].0 == *agent {
                let c = entries[p].1.count;
                proof {
                    proof_count_le(l, s, p as int);
                }
                let rep = entries[p].0.duplicate();
                entries.set(p, (rep, AgentMetaData { count: c + 1, population: n as u32 }));
            } else {
                entries.insert(p, (agent.duplicate(), AgentMetaData { count: 1, population: n as u32 }));
                proof {
                    l.insert_ensures(p as int, (agents@[i as int], AgentMetaData { count: 1, population: n as u32 }));
                }
            }
            assert(same_ledger(entries@, ledger_prefix(agents@.take(i + 1), n as nat)));
            i = i + 1;
        }
        proof {
            assert(agents@.take(n as int) == agents@);
            lemma_ledger_prefix(agents@, n as nat);
            let l = ledger_of(agents@);
            lemma_transfer_order(entries@, l);
            lemma_transfer_records(entries@, l, agents@, n as nat);
            lemma_transfer_witnesses(entries@, l, agents@);
        }
        entries
    }
}

} // verus!
