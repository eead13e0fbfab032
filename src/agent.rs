//! Strategy genomes: a lookup table indexed by the recent history of play.
use vstd::prelude::*;
use vstd::arithmetic::power2::*;
use vstd::string::*;
use crate::outside::random_bit;
use crate::types::ConfigurationError;

verus! {

/// The unsigned number that a bit sequence spells, most significant bit first.
pub open spec fn bits_value(bits: Seq<bool>) -> nat
    decreases bits.len(),
{
    if bits.len() == 0 {
        0
    } else {
        2 * bits_value(bits.drop_last()) + (if bits.last() { 1nat } else { 0nat })
    }
}

/// The text form of a genome: one `'1'` or `'0'` per bit.
pub open spec fn genome_text(genome: Seq<bool>) -> Seq<char> {
    genome.map_values(|b: bool| if b { '1' } else { '0' })
}

/// The action a genome plays after a given history.
pub open spec fn action_for(genome: Seq<bool>, history: Seq<bool>) -> bool {
    genome[bits_value(history) as int]
}

/// The history after a round's action bits are appended, keeping at most
/// `capacity` of the most recent bits.
pub open spec fn advanced_history(history: Seq<bool>, actions: Seq<bool>, capacity: nat) -> Seq<bool> {
    let joined = history + actions;
    if joined.len() <= capacity {
        joined
    } else {
        joined.subrange(joined.len() - capacity, joined.len() as int)
    }
}

/// Genomes in bit order from position `i` on: at the first position where
/// they differ the smaller has `false`; a genome that runs out first is
/// smaller.
pub open spec fn genome_lt_from(a: Seq<bool>, b: Seq<bool>, i: nat) -> bool
    decreases a.len() - i,
{
    if i >= a.len() {
        i < b.len()
    } else if i >= b.len() {
        false
    } else if a[i as int] != b[i as int] {
        !a[i as int]
    } else {
        genome_lt_from(a, b, i + 1)
    }
}

/// The total order on genomes by their bits.
pub open spec fn genome_lt(a: Seq<bool>, b: Seq<bool>) -> bool {
    genome_lt_from(a, b, 0)
}

/// Two genomes that agree from `i` on, and in length, are not ordered; of two
/// that differ there, exactly one is the smaller.
pub proof fn lemma_genome_lt_from_total(a: Seq<bool>, b: Seq<bool>, i: nat)
    requires
        i <= a.len(),
        i <= b.len(),
    ensures
        !(genome_lt_from(a, b, i) && genome_lt_from(b, a, i)),
        genome_lt_from(a, b, i) || genome_lt_from(b, a, i)
            || (a.len() == b.len() && forall|j: int| i <= j < a.len() ==> a[j] == b[j]),
    decreases a.len() - i,
{
    if i < a.len() && i < b.len() && a[i as int] == b[i as int] {
        lemma_genome_lt_from_total(a, b, i + 1);
    }
}

/// Of two genomes, one is the smaller or they are equal, never both.
pub proof fn lemma_genome_lt_total(a: Seq<bool>, b: Seq<bool>)
    ensures
        !(genome_lt(a, b) && genome_lt(b, a)),
        !genome_lt(a, a),
        genome_lt(a, b) || genome_lt(b, a) || a == b,
{
    lemma_genome_lt_from_total(a, b, 0);
    lemma_genome_lt_from_total(a, a, 0);
    if !genome_lt(a, b) && !genome_lt(b, a) {
        assert(a =~= b);
    }
}

pub proof fn lemma_genome_lt_from_trans(a: Seq<bool>, b: Seq<bool>, c: Seq<bool>, i: nat)
    requires
        genome_lt_from(a, b, i),
        genome_lt_from(b, c, i),
    ensures
        genome_lt_from(a, c, i),
    decreases a.len() - i,
{
    if i < a.len() && i < b.len() && i < c.len() && a[i as int] == b[i as int] && b[i as int] == c[i as int] {
        lemma_genome_lt_from_trans(a, b, c, i + 1);
    }
}

/// The bit order is transitive.
pub proof fn lemma_genome_lt_trans(a: Seq<bool>, b: Seq<bool>, c: Seq<bool>)
    requires
        genome_lt(a, b),
        genome_lt(b, c),
    ensures
        genome_lt(a, c),
{
    lemma_genome_lt_from_trans(a, b, c, 0);
}

/// A history of `k` bits indexes one of the first `2^k` entries.
pub proof fn lemma_bits_value_bound(bits: Seq<bool>)
    ensures
        bits_value(bits) < pow2(bits.len()),
    decreases bits.len(),
{
    if bits.len() > 0 {
        lemma_bits_value_bound(bits.drop_last());
        lemma_pow2_unfold(bits.len());
    } else {
        lemma_pow2_pos(0);
        assert(pow2(0) == 1) by { lemma2_to64(); }
    }
}

/// A genome of `pow2(m)` bits that fits in memory has `m < 64`.
pub proof fn lemma_memory_bound(m: nat)
    requires
        pow2(m) <= usize::MAX,
    ensures
        m < 64,
{
    if m >= 64 {
        lemma_pow2_mono(64, m);
        lemma2_to64();
    }
}

/// Powers of two grow with the exponent.
pub proof fn lemma_pow2_mono(a: nat, b: nat)
    requires
        a <= b,
    ensures
        pow2(a) <= pow2(b),
{
    if a < b {
        lemma_pow2_strictly_increases(a, b);
    }
}

/// One individual: a genome (a lookup table of `2^memory_len` actions) and the
/// recent history of play that indexes it.
#[derive(Debug)]
pub struct Agent {
    /// The genome as text, one `'1'` or `'0'` per bit.
    pub id: String,
    pub memory_len: usize,
    pub history: Vec<bool>,
    pub history_len: usize,
    pub genome: Vec<bool>,
}

impl View for Agent {
    /// The genome, the history and the memory capacity.
    type V = (Seq<bool>, Seq<bool>, nat);

    open spec fn view(&self) -> (Seq<bool>, Seq<bool>, nat) {
        (self.genome@, self.history@, self.memory_len as nat)
    }
}

/// The genome after flipping the bit at `index`.
pub open spec fn flipped(genome: Seq<bool>, index: int) -> Seq<bool> {
    genome.update(index, !genome[index])
}

/// The half of a genome that a split copies: the first half when `second` is
/// false, the second half otherwise (the whole genome when it has one bit).
pub open spec fn chosen_half(genome: Seq<bool>, second: bool) -> Seq<bool> {
    let half = genome.len() / 2;
    if half == 0 {
        genome
    } else if second {
        genome.subrange(half as int, genome.len() as int)
    } else {
        genome.subrange(0, half as int)
    }
}

/// The genome after a split: the chosen half is copied into both halves of a
/// new upper part, so the genome doubles and, for the histories whose new
/// leading bit is set, plays as the chosen half does.
pub open spec fn split_extended(genome: Seq<bool>, second: bool) -> Seq<bool> {
    let h = chosen_half(genome, second);
    if genome.len() / 2 == 0 {
        genome + h
    } else {
        genome + h + h
    }
}

/// What a mutation step is handed: the outcome of each trigger, already drawn.
/// `point` holds a raw random number that picks the bit to flip, `split` the
/// half to copy, and `duplicate` whether the whole genome is copied (an
/// operator that callers leave off unless they enable it).
#[derive(Clone, Copy, Debug)]
pub struct MutationDraw {
    pub point: Option<usize>,
    pub duplicate: bool,
    pub split: Option<bool>,
}

impl MutationDraw {
    /// A draw from the outcome of each trigger. Gene duplication is an
    /// operator that is off unless enabled: its trigger counts only then.
    pub fn from_triggers(point: Option<usize>, duplication_fired: bool, duplication_enabled: bool, split: Option<bool>) -> (r: MutationDraw)
        ensures
            r.point == point,
            r.duplicate == (duplication_fired && duplication_enabled),
            r.split == split,
    {
        MutationDraw { point, duplicate: duplication_fired && duplication_enabled, split }
    }

    /// A draw in which no operator fires.
    pub fn none() -> (r: MutationDraw)
        ensures
            r.point is None,
            !r.duplicate,
            r.split is None,
    {
        MutationDraw { point: None, duplicate: false, split: None }
    }
}

/// The genome after one mutation step: a point flip, then a full copy, then a
/// half copy, each only when drawn. A copy that would leave more than
/// `usize::MAX / 2` bits is not applied.
pub open spec fn mutated_genome(genome: Seq<bool>, draw: MutationDraw) -> Seq<bool> {
    let g1 = match draw.point {
        Some(raw) => flipped(genome, (raw as nat % genome.len()) as int),
        None => genome,
    };
    let g2 = if draw.duplicate && g1.len() <= usize::MAX / 4 { g1 + g1 } else { g1 };
    match draw.split {
        Some(second) => if g2.len() <= usize::MAX / 4 { split_extended(g2, second) } else { g2 },
        None => g2,
    }
}

impl PartialEq for Agent {
    /// Two individuals are the same strategy when their genomes agree.
    fn eq(&self, other: &Agent) -> (r: bool) {
        if self.genome.len() != other.genome.len() {
            return false;
        }
        let mut i: usize = 0;
        while i < self.genome.len()
            invariant
                i <= self.genome.len(),
                self.genome.len() == other.genome.len(),
                self.genome@.take(i as int) == other.genome@.take(i as int),
            decreases self.genome.len() - i,
        {
            if self.genome[i] != other.genome[i] {
                assert(self.genome@[i as int] != other.genome@[i as int]);
                return false;
            }
            assert(self.genome@.take(i + 1) == self.genome@.take(i as int).push(self.genome@[i as int]));
            assert(other.genome@.take(i + 1) == other.genome@.take(i as int).push(other.genome@[i as int]));
            i = i + 1;
        }
        assert(self.genome@.take(i as int) == self.genome@);
        assert(other.genome@.take(i as int) == other.genome@);
        true
    }
}

impl vstd::std_specs::cmp::PartialEqSpecImpl for Agent {
    open spec fn obeys_eq_spec() -> bool {
        true
    }

    open spec fn eq_spec(&self, other: &Agent) -> bool {
        self.genome@ == other.genome@
    }
}

impl Agent {
    /// Whether this genome comes before `other`'s in bit order.
    pub fn genome_before(&self, other: &Agent) -> (r: bool)
        ensures
            r == genome_lt(self.genome@, other.genome@),
    {
        let a = &self.genome;
        let b = &other.genome;
        let mut i: usize = 0;
        while i < a.len() && i < b.len()
            invariant
                i <= a@.len(),
                i <= b@.len(),
                a@ == self.genome@,
                b@ == other.genome@,
                genome_lt(a@, b@) == genome_lt_from(a@, b@, i as nat),
            decreases a@.len() - i,
        {
            if a[i] != b[i] {
                assert(genome_lt_from(a@, b@, i as nat) == !a@[i as int]);
                return !a[i];
            }
            i = i + 1;
        }
        i < b.len()
    }

    /// The genome holds one action per history of `memory_len` bits, the
    /// history never outgrows that capacity, and `id` spells the genome.
    pub open spec fn wf(&self) -> bool {
        &&& self.history_len == self.history@.len()
        &&& self.history_len <= self.memory_len
        &&& self.genome@.len() == pow2(self.memory_len as nat)
        &&& self.id@ == genome_text(self.genome@)
    }

    /// The text form of a genome.
    pub fn genome_to_id(genome: Vec<bool>) -> (id: String)
        ensures
            id@ == genome_text(genome@),
    {
        let mut id = String::new();
        let mut i: usize = 0;
        while i < genome.len()
            invariant
                i <= genome.len(),
                id@ == genome_text(genome@.take(i as int)),
            decreases genome.len() - i,
        {
            proof {
                reveal_strlit("1");
                reveal_strlit("0");
            }
            if genome[i] {
                id.append("1");
            } else {
                id.append("0");
            }
            assert(genome@.take(i + 1) == genome@.take(i as int).push(genome@[i as int]));
            i = i + 1;
        }
        assert(genome@.take(i as int) == genome@);
        id
    }

    /// An individual with the given genome and history. The genome must hold
    /// one action per history of `memory_len` bits, and the history fit that
    /// capacity.
    pub fn new(genome: Vec<bool>, history: Vec<bool>, memory_len: u32) -> (r: Agent)
        requires
            genome@.len() == pow2(memory_len as nat),
            history@.len() <= memory_len,
        ensures
            r.wf(),
            r.genome@ == genome@,
            r.history@ == history@,
            r.memory_len == memory_len,
    {
        let id = Agent::genome_to_id(genome.clone());
        let len = history.len();
        Agent { id, memory_len: memory_len as usize, history, history_len: len, genome }
    }

    /// An individual with the given genome and history, checked: the genome
    /// must hold exactly `2^memory_len` actions and the history fit that
    /// capacity.
    pub fn try_new(genome: Vec<bool>, history: Vec<bool>, memory_len: u32) -> (r: Result<Agent, ConfigurationError>)
        ensures
            r is Ok <==> (genome@.len() == pow2(memory_len as nat) && history@.len() <= memory_len),
            r is Err ==> r == Err::<Agent, ConfigurationError>(ConfigurationError::GenomeLength),
            r matches Ok(a) ==> a.wf() && a.genome@ == genome@ && a.history@ == history@ && a.memory_len == memory_len,
    {
        if history.len() > memory_len as usize || genome.len() == 0 {
            proof {
                lemma_pow2_pos(memory_len as nat);
            }
            return Err(ConfigurationError::GenomeLength);
        }
        let mut size: usize = 1;
        let mut e: u32 = 0;
        proof {
            lemma2_to64();
        }
        while e < memory_len
            invariant
                e <= memory_len,
                size == pow2(e as nat),
                size <= genome@.len(),
            decreases memory_len - e,
        {
            proof {
                lemma_pow2_unfold((e + 1) as nat);
            }
            if size > genome.len() / 2 {
                proof {
                    lemma_pow2_mono((e + 1) as nat, memory_len as nat);
                }
                return Err(ConfigurationError::GenomeLength);
            }
            size = size * 2;
            e = e + 1;
        }
        if size != genome.len() {
            return Err(ConfigurationError::GenomeLength);
        }
        Ok(Agent::new(genome, history, memory_len))
    }

    /// An individual of memory `memory_len` with a random genome and a random
    /// full history.
    pub fn random_init(memory_len: u32) -> (r: Agent)
        requires
            pow2(memory_len as nat) <= usize::MAX,
        ensures
            r.wf(),
            r.memory_len == memory_len,
            r.history@.len() == memory_len,
    {
        let mut history: Vec<bool> = Vec::new();
        let mut i: u32 = 0;
        while i < memory_len
            invariant
                i <= memory_len,
                history@.len() == i,
            decreases memory_len - i,
        {
            history.push(random_bit());
            i = i + 1;
        }
        let mut size: usize = 1;
        let mut e: u32 = 0;
        proof {
            lemma2_to64();
            lemma2_to64_rest();
        }
        while e < memory_len
            invariant
                e <= memory_len,
                size == pow2(e as nat),
                pow2(memory_len as nat) <= usize::MAX,
            decreases memory_len - e,
        {
            proof {
                lemma_pow2_unfold((e + 1) as nat);
                lemma_pow2_mono((e + 1) as nat, memory_len as nat);
            }
            size = size * 2;
            e = e + 1;
        }
        let mut genome: Vec<bool> = Vec::new();
        let mut j: usize = 0;
        while j < size
            invariant
                j <= size,
                genome@.len() == j,
            decreases size - j,
        {
            genome.push(random_bit());
            j = j + 1;
        }
        Agent::new(genome, history, memory_len)
    }

    /// A copy of this individual.
    pub fn duplicate(&self) -> (r: Agent)
        ensures
            r@ == self@,
            r.id@ == self.id@,
            r.history_len == self.history_len,
            self.wf() ==> r.wf(),
    {
        Agent {
            id: self.id.clone(),
            memory_len: self.memory_len,
            history: self.history.clone(),
            history_len: self.history_len,
            genome: self.genome.clone(),
        }
    }

    /// The index into the genome that the current history spells, most
    /// significant bit first.
    fn history_index(&self) -> (idx: usize)
        requires
            self.wf(),
        ensures
            idx == bits_value(self.history@),
            idx < self.genome@.len(),
    {
        let mut idx: usize = 0;
        let mut i: usize = 0;
        let glen = self.genome.len();
        proof {
            lemma_pow2_mono(self.history_len as nat, self.memory_len as nat);
        }
        while i < self.history.len()
            invariant
                self.wf(),
                i <= self.history@.len(),
                idx == bits_value(self.history@.take(i as int)),
                pow2(self.history@.len()) <= self.genome@.len(),
                glen == self.genome@.len(),
            decreases self.history.len() - i,
        {
            let ghost prefix = self.history@.take(i + 1);
            assert(prefix.drop_last() == self.history@.take(i as int));
            assert(prefix.last() == self.history@[i as int]);
            proof {
                lemma_bits_value_bound(prefix);
                lemma_pow2_mono(prefix.len(), self.history@.len());
            }
            let bit: usize = if self.history[i] { 1 } else { 0 };
            assert(bits_value(prefix) == 2 * idx + bit);
            idx = idx * 2 + bit;
            i = i + 1;
        }
        assert(self.history@.take(i as int) == self.history@);
        proof {
            lemma_bits_value_bound(self.history@);
        }
        idx
    }

    /// The action this individual plays after its current history.
    pub fn map_history_to_action(&self) -> (action: bool)
        requires
            self.wf(),
        ensures
            action == action_for(self.genome@, self.history@),
    {
        let idx = self.history_index();
        self.genome[idx]
    }

    /// The action this individual plays after its current history.
    pub fn get_action(&mut self) -> (action: bool)
        requires
            old(self).wf(),
        ensures
            *final(self) == *old(self),
            action == action_for(old(self).genome@, old(self).history@),
    {
        self.map_history_to_action()
    }

    /// Appends one round's pair of action bits to the history, dropping the
    /// oldest bits once the history would outgrow `memory_len`.
    pub fn add_memory(&mut self, old_actions: [bool; 2])
        requires
            old(self).wf(),
        ensures
            final(self).wf(),
            final(self).history@ == advanced_history(old(self).history@, old_actions@, old(self).memory_len as nat),
            final(self).genome@ == old(self).genome@,
            final(self).memory_len == old(self).memory_len,
            final(self).id@ == old(self).id@,
    {
        let ghost joined = self.history@ + old_actions@;
        let glen = self.genome.len();
        proof { lemma_memory_bound(self.memory_len as nat); }
        let total = self.history.len() + 2;
        let keep = if total <= self.memory_len { total } else { self.memory_len };
        let drop = total - keep;
        let mut next: Vec<bool> = Vec::new();
        let mut i: usize = drop;
        while i < total
            invariant
                drop <= i <= total,
                total == self.history@.len() + 2,
                joined == self.history@ + old_actions@,
                next@ == joined.subrange(drop as int, i as int),
            decreases total - i,
        {
            let bit = if i < self.history.len() { self.history[i] } else { old_actions[i - self.history.len()] };
            assert(bit == joined[i as int]);
            assert(joined.subrange(drop as int, i + 1) == joined.subrange(drop as int, i as int).push(joined[i as int]));
            next.push(bit);
            i = i + 1;
        }
        assert(drop == 0 ==> joined.subrange(0, total as int) == joined);
        self.history = next;
        self.history_len = keep;
    }

    /// Flips the bit at `index`.
    pub fn point_mutation(&mut self, index: usize)
        requires
            old(self).wf(),
            index < old(self).genome@.len(),
        ensures
            final(self).wf(),
            final(self).genome@ == flipped(old(self).genome@, index as int),
            final(self).genome@.len() == old(self).genome@.len(),
            final(self).genome@[index as int] != old(self).genome@[index as int],
            forall|j: int| 0 <= j < old(self).genome@.len() && j != index ==> #[trigger] final(self).genome@[j] == old(self).genome@[j],
            final(self).history@ == old(self).history@,
            final(self).memory_len == old(self).memory_len,
    {
        let bit = self.genome[index];
        self.genome.set(index, !bit);
        self.id = Agent::genome_to_id(self.genome.clone());
    }

    /// Doubles the genome by copying its chosen half (the second half when
    /// `second` holds) into both halves of a new upper part, and raises the
    /// memory capacity by one.
    #[verifier::rlimit(30)]
    pub fn split_mutation(&mut self, second: bool)
        requires
            old(self).wf(),
            old(self).genome@.len() <= usize::MAX / 4,
        ensures
            final(self).wf(),
            final(self).genome@ == split_extended(old(self).genome@, second),
            final(self).genome@.len() == 2 * old(self).genome@.len(),
            final(self).genome@.take(old(self).genome@.len() as int) == old(self).genome@,
            final(self).history@ == old(self).history@,
            final(self).memory_len == old(self).memory_len + 1,
    {
        let ghost g = self.genome@;
        let len = self.genome.len();
        let half = len / 2;
        let (start, width) = if half == 0 { (0, len) } else if second { (half, half) } else { (0, half) };
        let copies: usize = if half == 0 { 1 } else { 2 };
        let ghost h = chosen_half(g, second);
        proof {
            lemma_memory_bound(self.memory_len as nat);
            lemma_pow2_unfold((self.memory_len + 1) as nat);
            if self.memory_len == 0 {
                assert(pow2(0) == 1) by { lemma2_to64(); }
            } else {
                lemma_pow2_unfold(self.memory_len as nat);
            }
        }
        proof {
            if half == 0 {
                assert(start == 0 && width == len);
                assert(h =~= g.subrange(start as int, start + width));
            } else if second {
                assert(len == 2 * half);
                assert(h =~= g.subrange(start as int, start + width));
            } else {
                assert(h =~= g.subrange(start as int, start + width));
            }
        }
        assert(width * copies == len);
        let mut c: usize = 0;
        while c < copies
            invariant
                g == old(self).genome@,
                len == g.len(),
                h == g.subrange(start as int, start + width),
                start + width <= len,
                copies <= 2,
                c <= copies,
                width * copies == len,
                len <= usize::MAX / 4,
                self.genome@.len() >= len,
                self.genome@.subrange(0, len as int) == g,
                c == 0 ==> self.genome@ == g,
                c == 1 ==> self.genome@ == g + h,
                c == 2 ==> self.genome@ == g + h + h,
                self.history@ == old(self).history@,
                self.memory_len == old(self).memory_len,
                self.history_len == old(self).history_len,
            decreases copies - c,
        {
            let ghost before = self.genome@;
            let mut i: usize = 0;
            while i < width
                invariant
                    g == old(self).genome@,
                    h == g.subrange(start as int, start + width),
                    start + width <= len,
                    len == g.len(),
                    len <= usize::MAX / 4,
                    before.len() <= 2 * len,
                    before.len() >= len,
                    before.subrange(0, len as int) == g,
                    i <= width,
                    self.genome@ == before + h.take(i as int),
                    self.history@ == old(self).history@,
                    self.memory_len == old(self).memory_len,
                    self.history_len == old(self).history_len,
                decreases width - i,
            {
                assert(self.genome@[start + i] == before[start + i]);
                assert(before[start + i] == before.subrange(0, len as int)[start + i]);
                let bit = self.genome[start + i];
                assert(bit == h[i as int]);
                assert(h.take(i + 1) == h.take(i as int).push(h[i as int]));
                self.genome.push(bit);
                i = i + 1;
            }
            assert(h.take(i as int) == h);
            assert(self.genome@.subrange(0, len as int) =~= g);
            c = c + 1;
        }
        assert(half == 0 ==> copies == 1);
        assert(self.genome@.take(len as int) =~= g);
        self.memory_len = self.memory_len + 1;
        self.id = Agent::genome_to_id(self.genome.clone());
    }

    /// Appends a full copy of the genome to itself, raising the memory
    /// capacity by one.
    pub fn duplication_mutation(&mut self)
        requires
            old(self).wf(),
            old(self).genome@.len() <= usize::MAX / 4,
        ensures
            final(self).wf(),
            final(self).genome@ == old(self).genome@ + old(self).genome@,
            final(self).history@ == old(self).history@,
            final(self).memory_len == old(self).memory_len + 1,
    {
        let copy = self.genome.clone();
        let mut i: usize = 0;
        while i < copy.len()
            invariant
                copy@ == old(self).genome@,
                i <= copy@.len(),
                self.genome@ == copy@ + copy@.take(i as int),
                self.history@ == old(self).history@,
                self.memory_len == old(self).memory_len,
                self.history_len == old(self).history_len,
                copy@.len() <= usize::MAX / 4,
            decreases copy.len() - i,
        {
            assert(copy@.take(i + 1) == copy@.take(i as int).push(copy@[i as int]));
            self.genome.push(copy[i]);
            i = i + 1;
        }
        assert(copy@.take(i as int) == copy@);
        proof {
            lemma_memory_bound(self.memory_len as nat);
            lemma_pow2_unfold((self.memory_len + 1) as nat);
        }
        self.memory_len = self.memory_len + 1;
        self.id = Agent::genome_to_id(self.genome.clone());
    }

    /// Applies the drawn mutation operators in turn (point flip, full copy,
    /// half copy) and tells whether any of them changed the individual.
    pub fn mutate(&mut self, draw: MutationDraw) -> (mutated: bool)
        requires
            old(self).wf(),
        ensures
            final(self).wf(),
            final(self).genome@ == mutated_genome(old(self).genome@, draw),
            final(self).history@ == old(self).history@,
            mutated == (draw.point is Some || final(self).genome@.len() > old(self).genome@.len()),
    {
        let mut mutated = false;
        proof { lemma_pow2_pos(old(self).memory_len as nat); }
        match draw.point {
            Some(raw) => {
                let index = raw % self.genome.len();
                self.point_mutation(index);
                mutated = true;
            },
            None => {},
        }
        if draw.duplicate && self.genome.len() <= usize::MAX / 4 {
            self.duplication_mutation();
            mutated = true;
        }
        match draw.split {
            Some(second) => {
                if self.genome.len() <= usize::MAX / 4 {
                    self.split_mutation(second);
                    mutated = true;
                }
            },
            None => {},
        }
        mutated
    }
}

} // verus!
