use vstd::prelude::*;
use rand::Rng;
use rand::SeedableRng;
use rand::rngs::StdRng;
use crate::base::sim_time::{SimTime, decimal, time_text, count_text};
use crate::base::value_lines::{lines_of, parsed_time, trimmed, parse_time, pieces};
use vstd::string::StringExecFns;

verus! {

/// A random variable from which simulated delays are sampled.
pub trait RandomVariable: Sized {
    /// What sampling does: `value` is the sample drawn, and `after` the random
    /// variable once drawn from. Unless a random variable says more, nothing is
    /// known of it.
    open spec fn sampled(&self, after: Self, value: SimTime) -> bool {
        true
    }

    /// Sample value from RV
    fn sample(&mut self) -> (r: SimTime)
        ensures
            old(self).sampled(*final(self), r),
    ;

    /// Get min value that can be sampled, and None if there is no lower bound;
    /// unless a random variable says otherwise, it knows none.
    fn min(&self) -> (r: Option<SimTime>)
        default_ensures
            r is None,
    {
        None
    }

    /// Get max value that can be sampled, and None if there is no upper bound;
    /// unless a random variable says otherwise, it knows none.
    fn max(&self) -> (r: Option<SimTime>)
        default_ensures
            r is None,
    {
        None
    }

    /// Return a string with debug information on RV
    fn describe(&self) -> String;
}

/// `text` between a name and its closing bracket: `name(text)`.
fn wrapped_text(name: &str, text: String) -> (r: String)
    ensures
        r@ == name@ + "("@ + text@ + ")"@,
{
    let mut r = String::from_str(name);
    r.append("(");
    r.append(text.as_str());
    r.append(")");
    r
}

/// RV that has only one value
#[derive(Clone, Debug)]
pub struct Deterministic {
    value: SimTime,
}

impl Deterministic {
    /// The value that every sample returns.
    pub closed spec fn held_value(&self) -> SimTime {
        self.value
    }

    pub fn new(value: SimTime) -> (r: Self)
        ensures
            r.held_value() == value,
    {
        Deterministic { value }
    }
}

impl RandomVariable for Deterministic {
    /// Every sample is the held value, and the variable stays as it is.
    open spec fn sampled(&self, after: Self, value: SimTime) -> bool {
        value == self.held_value() && after == *self
    }

    fn sample(&mut self) -> (r: SimTime)
        ensures
            r == old(self).held_value(),
            *final(self) == *old(self),
    {
        self.value
    }

    fn min(&self) -> (r: Option<SimTime>)
        ensures
            r == Some(self.held_value()),
    {
        Some(self.value)
    }

    fn max(&self) -> (r: Option<SimTime>)
        ensures
            r == Some(self.held_value()),
    {
        Some(self.value)
    }

    fn describe(&self) -> (r: String)
        ensures
            r@ == "Deterministic"@ + "("@ + decimal(self.held_value() as int) + ")"@,
    {
        wrapped_text("Deterministic", time_text(self.value))
    }
}

/// Declares `rand`'s standard generator, which a `Uniform` owns.
#[verifier::external_type_specification]
#[verifier::external_body]
pub struct ExStdRng(StdRng);

/// The generator that `SeedableRng::seed_from_u64` makes from `seed`: it
/// is a function of the seed alone.
pub uninterp spec fn seeded_generator(seed: u64) -> StdRng;

/// What `Rng::gen_range(low..=high)` does with generator `rng`: the value
/// drawn, and the generator after the draw. Both depend on the generator's
/// state and the range alone.
pub uninterp spec fn range_draw(rng: StdRng, low: SimTime, high: SimTime) -> (SimTime, StdRng);

/// Copies `rand`'s standard generator with its derived `Clone`, which copies
/// its whole state: the copy is the same generator.
pub assume_specification[ <StdRng as Clone>::clone ](rng: &StdRng) -> (r: StdRng)
    ensures
        r == *rng,
;

/// Creates `rand`'s standard generator seeded from `seed` with
/// `SeedableRng::seed_from_u64`, which is deterministic.
#[verifier::external_body]
fn seeded_rng(seed: u64) -> (r: StdRng)
    ensures
        r == seeded_generator(seed),
{
    StdRng::seed_from_u64(seed)
}

/// Draws a value of `low..=high` with `Rng::gen_range`, which panics on an
/// empty range only. Claimed of it: the value and the next state of the
/// generator are those that `range_draw` names, the value lies in the range,
/// and on a non-empty range the call returns normally.
#[verifier::external_body]
fn sample_range(rng: &mut StdRng, low: SimTime, high: SimTime) -> (r: SimTime)
    requires
        low <= high,
    ensures
        (r, *final(rng)) == range_draw(*old(rng), low, high),
        low <= r <= high,
    no_unwind
{
    rng.gen_range(low..=high)
}

/// The generator of a uniform distribution on [low, high] seeded with `seed`,
/// once `k` values have been drawn from it.
pub open spec fn uniform_generator(seed: u64, low: SimTime, high: SimTime, k: nat) -> StdRng
    decreases k,
{
    if k == 0 {
        seeded_generator(seed)
    } else {
        range_draw(uniform_generator(seed, low, high, (k - 1) as nat), low, high).1
    }
}

/// Each draw of a uniform distribution advances its generator: the generator
/// after `k + 1` draws is the one that drawing from the generator after `k`
/// draws leaves, and the `k`-th value is the value drawn from the latter.
/// Draw zero comes from the generator that the seed makes.
pub proof fn law_uniform_stream_advances(seed: u64, low: SimTime, high: SimTime, k: nat)
    ensures
        uniform_generator(seed, low, high, 0) == seeded_generator(seed),
        uniform_generator(seed, low, high, k + 1) == range_draw(
            uniform_generator(seed, low, high, k),
            low,
            high,
        ).1,
        uniform_draw(seed, low, high, k) == range_draw(uniform_generator(seed, low, high, k), low, high).0,
{
    assert((k + 1 - 1) as nat == k);
}

/// The value that a uniform distribution on [low, high] seeded with `seed`
/// draws after `k` earlier draws.
pub open spec fn uniform_draw(seed: u64, low: SimTime, high: SimTime, k: nat) -> SimTime {
    range_draw(uniform_generator(seed, low, high, k), low, high).0
}

/// Uniform distribution on [min, max]
pub struct Uniform {
    min: SimTime,
    max: SimTime,
    rng: StdRng,
    /// The seed of the generator.
    seed: Ghost<u64>,
    /// The number of values drawn so far.
    draws: Ghost<nat>,
}

impl Uniform {
    #[verifier::type_invariant]
    spec fn range_ok(&self) -> bool {
        &&& self.min <= self.max
        &&& self.rng == uniform_generator(self.seed@, self.min, self.max, self.draws@)
    }

    /// The smallest value that can be sampled.
    pub closed spec fn low(&self) -> SimTime {
        self.min
    }

    /// The largest value that can be sampled.
    pub closed spec fn high(&self) -> SimTime {
        self.max
    }

    /// The seed of the generator.
    pub closed spec fn seed(&self) -> u64 {
        self.seed@
    }

    /// The number of values drawn so far.
    pub closed spec fn draws(&self) -> nat {
        self.draws@
    }

    /// The state of the generator, from which the next value is drawn.
    pub closed spec fn generator(&self) -> StdRng {
        self.rng
    }

    /// A uniform distribution on [min, max], whose generator is seeded with `seed`.
    pub fn new(min: SimTime, max: SimTime, seed: u64) -> (r: Self)
        requires
            min <= max,
        ensures
            r.low() == min,
            r.high() == max,
            r.seed() == seed,
            r.draws() == 0,
            r.generator() == seeded_generator(seed),
    {
        Uniform { min, max, rng: seeded_rng(seed), seed: Ghost(seed), draws: Ghost(0) }
    }
}

impl Clone for Uniform {
    /// A copy whose generator produces the same values as this one's.
    fn clone(&self) -> (r: Self)
        ensures
            r.low() == self.low(),
            r.high() == self.high(),
            r.seed() == self.seed(),
            r.draws() == self.draws(),
            r.generator() == self.generator(),
    {
        proof {
            use_type_invariant(self);
        }
        Uniform {
            min: self.min,
            max: self.max,
            rng: self.rng.clone(),
            seed: Ghost(self.seed@),
            draws: Ghost(self.draws@),
        }
    }
}

impl RandomVariable for Uniform {
    /// A sample is the next value of the seeded stream, which lies in
    /// [min, max]; the bounds and the seed stay, and one more value is drawn.
    open spec fn sampled(&self, after: Self, value: SimTime) -> bool {
        &&& value == uniform_draw(self.seed(), self.low(), self.high(), self.draws())
        &&& (value, after.generator()) == range_draw(self.generator(), self.low(), self.high())
        &&& self.low() <= value <= self.high()
        &&& after.low() == self.low()
        &&& after.high() == self.high()
        &&& after.seed() == self.seed()
        &&& after.draws() == self.draws() + 1
    }

    fn sample(&mut self) -> (r: SimTime)
        ensures
            r == uniform_draw(old(self).seed(), old(self).low(), old(self).high(), old(self).draws()),
            (r, final(self).generator()) == range_draw(
                old(self).generator(),
                old(self).low(),
                old(self).high(),
            ),
            old(self).low() <= r <= old(self).high(),
            final(self).low() == old(self).low(),
            final(self).high() == old(self).high(),
            final(self).seed() == old(self).seed(),
            final(self).draws() == old(self).draws() + 1,
    {
        proof {
            use_type_invariant(&*self);
        }
        let mut rng = self.rng.clone();
        let r = sample_range(&mut rng, self.min, self.max);
        *self = Uniform {
            min: self.min,
            max: self.max,
            rng,
            seed: Ghost(self.seed@),
            draws: Ghost(self.draws@ + 1),
        };
        r
    }

    fn min(&self) -> (r: Option<SimTime>)
        ensures
            r == Some(self.low()),
    {
        Some(self.min)
    }

    fn max(&self) -> (r: Option<SimTime>)
        ensures
            r == Some(self.high()),
    {
        Some(self.max)
    }

    fn describe(&self) -> (r: String)
        ensures
            r@ == "Uniform"@ + "("@ + (decimal(self.low() as int) + ", "@ + decimal(
                self.high() as int,
            )) + ")"@,
    {
        let mut text = time_text(self.min);
        text.append(", ");
        text.append(time_text(self.max).as_str());
        wrapped_text("Uniform", text)
    }
}

/// `m` is an element of `s` and no element of `s` is smaller.
pub open spec fn is_smallest(s: Seq<SimTime>, m: SimTime) -> bool {
    s.contains(m) && forall|i: int| 0 <= i < s.len() ==> m <= #[trigger] s[i]
}

/// `m` is an element of `s` and no element of `s` is larger.
pub open spec fn is_largest(s: Seq<SimTime>, m: SimTime) -> bool {
    s.contains(m) && forall|i: int| 0 <= i < s.len() ==> #[trigger] s[i] <= m
}

/// Deterministic values, returned one after the other; once they are all
/// used, every sample returns -1.
#[derive(Clone, Debug)]
pub struct DetVar {
    values: Vec<SimTime>,
    pos: usize,
}

impl DetVar {
    /// The values, in the order in which they are returned.
    pub closed spec fn values(&self) -> Seq<SimTime> {
        self.values@
    }

    /// The number of values returned so far.
    pub closed spec fn position(&self) -> nat {
        self.pos as nat
    }

    pub fn from_vec(values: Vec<SimTime>) -> (r: Self)
        ensures
            r.values() == values@,
            r.position() == 0,
    {
        DetVar { values, pos: 0 }
    }

    /// Deterministic values read from a text holding one time per line, in
    /// decimal between white space. None when a line holds no such time.
    pub fn from_text(text: &str) -> (r: Option<Self>)
        ensures
            r is Some <==> forall|i: int|
                0 <= i < lines_of(text@).len() ==> #[trigger] parsed_time(
                    trimmed(lines_of(text@)[i]),
                ) is Some,
            r is Some ==> r->0.position() == 0 && r->0.values() == Seq::new(
                lines_of(text@).len(),
                |i: int| parsed_time(trimmed(lines_of(text@)[i]))->0,
            ),
    {
        let mut values: Vec<SimTime> = Vec::new();
        let mut cur: Vec<char> = Vec::new();
        let mut ok = true;
        let mut any = false;
        let ghost mut seen: Seq<char> = Seq::empty();
        let ghost mut done: Seq<Seq<char>> = Seq::empty();
        for c in it: text.chars()
            invariant
                it.seq() == text@,
                seen == it.seq().take(it.index() as int),
                any == (seen.len() > 0),
                any ==> (cur@.len() == 0 <==> seen.last() == '\n'),
                pieces(seen) == done.push(cur@),
                ok == forall|j: int| 0 <= j < done.len() ==> #[trigger] parsed_time(trimmed(done[j])) is Some,
                ok ==> values@ == Seq::new(done.len(), |j: int| parsed_time(trimmed(done[j]))->0),
        {
            let ghost next = seen.push(c);
            assert(next.drop_last() =~= seen);
            assert(it.seq().take(it.index() + 1) =~= next);
            if c == '\n' {
                match parse_time(&cur) {
                    Some(v) => {
                        if ok {
                            values.push(v);
                        }
                    },
                    None => {
                        ok = false;
                    },
                }
                proof {
                    let d2 = done.push(cur@);
                    assert(pieces(next) == d2.push(Seq::<char>::empty()));
                    if ok {
                        assert(values@ =~= Seq::new(d2.len(), |j: int| parsed_time(trimmed(d2[j]))->0));
                    }
                    assert(ok == forall|j: int| 0 <= j < d2.len() ==> #[trigger] parsed_time(trimmed(d2[j])) is Some) by {
                        if !ok && parsed_time(trimmed(cur@)) is Some {
                            let j = choose|j: int| 0 <= j < done.len() && !(#[trigger] parsed_time(trimmed(done[j])) is Some);
                            assert(d2[j] == done[j]);
                        }
                        if ok {
                            assert forall|j: int| 0 <= j < d2.len() implies #[trigger] parsed_time(trimmed(d2[j])) is Some by {
                                if j < done.len() {
                                    assert(d2[j] == done[j]);
                                }
                            }
                        }
                        if parsed_time(trimmed(cur@)) is None {
                            assert(d2[done.len() as int] == cur@);
                        }
                    }
                    done = d2;
                }
                cur = Vec::new();
            } else {
                let ghost before_cur = cur@;
                cur.push(c);
                proof {
                    let p = pieces(seen);
                    assert(p.len() - 1 == done.len());
                    assert(pieces(next) =~= done.push(cur@));
                }
            }
            any = true;
            proof {
                seen = next;
            }
        }
        proof {
            assert(seen =~= text@);
        }
        if !any {
            proof {
                assert(lines_of(text@).len() == 0);
                assert(values@ =~= Seq::new(0, |i: int| parsed_time(trimmed(lines_of(text@)[i]))->0));
            }
            return if ok { Some(DetVar { values, pos: 0 }) } else { None };
        }
        if cur.len() > 0 {
            // A last line without a newline after it
            match parse_time(&cur) {
                Some(v) => {
                    if ok {
                        values.push(v);
                    }
                },
                None => {
                    ok = false;
                },
            }
        }
        proof {
            let lines = lines_of(text@);
            if cur@.len() > 0 {
                assert(lines == done.push(cur@));
            } else {
                assert(lines =~= done);
            }
            assert(ok == forall|i: int| 0 <= i < lines.len() ==> #[trigger] parsed_time(trimmed(lines[i])) is Some) by {
                if cur@.len() > 0 {
                    if !ok && parsed_time(trimmed(cur@)) is Some {
                        let j = choose|j: int| 0 <= j < done.len() && !(#[trigger] parsed_time(trimmed(done[j])) is Some);
                        assert(lines[j] == done[j]);
                    }
                    if ok {
                        assert forall|j: int| 0 <= j < lines.len() implies #[trigger] parsed_time(trimmed(lines[j])) is Some by {
                            if j < done.len() {
                                assert(lines[j] == done[j]);
                            }
                        }
                    }
                    if parsed_time(trimmed(cur@)) is None {
                        assert(lines[done.len() as int] == cur@);
                    }
                }
            }
            if ok {
                assert(values@ =~= Seq::new(lines.len(), |i: int| parsed_time(trimmed(lines[i]))->0));
            }
        }
        if ok {
            Some(DetVar { values, pos: 0 })
        } else {
            None
        }
    }
}

impl RandomVariable for DetVar {
    /// A sample is the next unused value, which is then used, or -1 once they
    /// are all used.
    open spec fn sampled(&self, after: Self, value: SimTime) -> bool {
        &&& after.values() == self.values()
        &&& self.position() < self.values().len() ==> value == self.values()[self.position() as int]
            && after.position() == self.position() + 1
        &&& self.position() >= self.values().len() ==> value == -1 && after.position()
            == self.position()
    }

    /// The next unused value, or -1 once they are all used.
    fn sample(&mut self) -> (r: SimTime)
        ensures
            final(self).values() == old(self).values(),
            old(self).position() < old(self).values().len() ==> {
                &&& r == old(self).values()[old(self).position() as int]
                &&& final(self).position() == old(self).position() + 1
            },
            old(self).position() >= old(self).values().len() ==> {
                &&& r == -1
                &&& final(self).position() == old(self).position()
            },
    {
        if self.values.len() == 0 {
            return -1;
        }
        if self.pos >= self.values.len() {
            -1
        } else {
            let val = self.values[self.pos];
            self.pos = self.pos + 1;
            val
        }
    }

    /// The smallest value, or None when there is none.
    fn min(&self) -> (r: Option<SimTime>)
        ensures
            r is None <==> self.values().len() == 0,
            r is Some ==> is_smallest(self.values(), r->0),
    {
        let mut best: Option<SimTime> = None;
        let mut i: usize = 0;
        while i < self.values.len()
            invariant
                i <= self.values@.len(),
                best is None <==> i == 0,
                best is Some ==> is_smallest(self.values@.take(i as int), best->0),
            decreases self.values@.len() - i,
        {
            let v = self.values[i];
            let ghost prefix = self.values@.take(i as int);
            best = match best {
                Some(b) => if v < b {
                    Some(v)
                } else {
                    Some(b)
                },
                None => Some(v),
            };
            proof {
                let next = self.values@.take(i + 1);
                assert(next =~= prefix.push(v));
                assert(next[i as int] == v);
                assert forall|w: int| 0 <= w < next.len() implies best->0 <= #[trigger] next[w] by {
                    if w < i {
                        assert(next[w] == prefix[w]);
                    }
                }
                if best->0 == v {
                    assert(next.contains(v));
                } else {
                    let w = choose|w: int| 0 <= w < prefix.len() && prefix[w] == best->0;
                    assert(next[w] == prefix[w]);
                }
            }
            i = i + 1;
        }
        proof {
            assert(self.values@.take(self.values@.len() as int) =~= self.values@);
        }
        best
    }

    /// The largest value, or None when there is none.
    fn max(&self) -> (r: Option<SimTime>)
        ensures
            r is None <==> self.values().len() == 0,
            r is Some ==> is_largest(self.values(), r->0),
    {
        let mut best: Option<SimTime> = None;
        let mut i: usize = 0;
        while i < self.values.len()
            invariant
                i <= self.values@.len(),
                best is None <==> i == 0,
                best is Some ==> is_largest(self.values@.take(i as int), best->0),
            decreases self.values@.len() - i,
        {
            let v = self.values[i];
            let ghost prefix = self.values@.take(i as int);
            best = match best {
                Some(b) => if v > b {
                    Some(v)
                } else {
                    Some(b)
                },
                None => Some(v),
            };
            proof {
                let next = self.values@.take(i + 1);
                assert(next =~= prefix.push(v));
                assert(next[i as int] == v);
                assert forall|w: int| 0 <= w < next.len() implies #[trigger] next[w] <= best->0 by {
                    if w < i {
                        assert(next[w] == prefix[w]);
                    }
                }
                if best->0 == v {
                    assert(next.contains(v));
                } else {
                    let w = choose|w: int| 0 <= w < prefix.len() && prefix[w] == best->0;
                    assert(next[w] == prefix[w]);
                }
            }
            i = i + 1;
        }
        proof {
            assert(self.values@.take(self.values@.len() as int) =~= self.values@);
        }
        best
    }

    fn describe(&self) -> (r: String)
        ensures
            r@ == "DetVar"@ + "("@ + (decimal(self.values().len() as int) + " values"@) + ")"@,
    {
        let mut text = count_text(self.values.len());
        text.append(" values");
        wrapped_text("DetVar", text)
    }
}

} // verus!
