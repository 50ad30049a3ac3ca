use crate::segment::{bits_of, Bits, MappedBitVec};
use vstd::prelude::*;

verus! {

/// A candidate read from a spoke: its value, its index in the spoke, and the
/// spoke's number.
pub type PrimeInfo = (usize, usize, usize);

/// Number of terms `offset + i * modulus` that do not exceed `max`.
pub open spec fn span(offset: int, modulus: int, max: int) -> int {
    if offset > max {
        0
    } else {
        (max - offset) / modulus + 1
    }
}

/// `bits` with every position `start, start + stride, ...` cleared.
pub open spec fn cleared(bits: Seq<bool>, start: int, stride: int) -> Seq<bool> {
    Seq::new(bits.len(), |k: int| bits[k] && !(k >= start && (k - start) % stride == 0))
}

/// Marking is idempotent: marking the same composite with the same prime a
/// second time leaves the bits as the first marking left them.
pub proof fn lemma_mark_idempotent(bits: Seq<bool>, start: int, stride: int)
    ensures
        cleared(cleared(bits, start, stride), start, stride) == cleared(bits, start, stride),
{
    assert(cleared(cleared(bits, start, stride), start, stride) =~= cleared(bits, start, stride));
}

/// The bits of a spoke covering `offset, offset + modulus, ...` up to `max`, all set.
pub fn initialize_vec(offset: usize, modulus: usize, max: usize) -> (r: Bits)
    requires
        modulus >= 2,
        span(offset as int, modulus as int, max as int) <= usize::MAX / 8,
    ensures
        bits_of(r) == Seq::new(span(offset as int, modulus as int, max as int) as nat, |_i: int| true),
{
    let size: usize = if offset > max {
        0
    } else {
        proof {
            vstd::arithmetic::div_mod::lemma_div_is_ordered_by_denominator(
                (max - offset) as int,
                2,
                modulus as int,
            );
        }
        (max - offset) / modulus + 1
    };
    Bits::repeat(true, size)
}

/// Marks as composite every position of `wheel` from the one of `composite`
/// onward, `prime` positions apart.
pub fn sieve(prime: usize, composite: usize, modulus: usize, sub: usize, wheel: &mut MappedBitVec)
    requires
        prime > 0,
        modulus > 0,
        composite / modulus >= sub,
    ensures
        final(wheel).bits() == cleared(old(wheel).bits(), composite / modulus - sub, prime as int),
        final(wheel).offset() == old(wheel).offset(),
        final(wheel).modulus() == old(wheel).modulus(),
{
    let p_index = (composite / modulus) - sub;
    let len = wheel.max_len();
    let mut i: usize = p_index;
    let ghost start = p_index as int;
    let ghost bits0 = wheel.bits();
    proof {
        vstd::arithmetic::div_mod::lemma_small_mod(0, prime as nat);
    }
    while i < len
        invariant
            len == bits0.len(),
            wheel.bits().len() == bits0.len(),
            wheel.offset() == old(wheel).offset(),
            wheel.modulus() == old(wheel).modulus(),
            bits0 == old(wheel).bits(),
            start <= i,
            i < len ==> (i - start) % (prime as int) == 0,
            prime > 0,
            forall|k: int|
                0 <= k < len ==> #[trigger] wheel.bits()[k] == if k < i {
                    cleared(bits0, start, prime as int)[k]
                } else {
                    bits0[k]
                },
        decreases len - i,
    {
        wheel.set(i, false);
        let next: usize = if prime >= len - i {
            len
        } else {
            i + prime
        };
        assert forall|k: int| 0 <= k < len implies #[trigger] wheel.bits()[k] == if k < next {
            cleared(bits0, start, prime as int)[k]
        } else {
            bits0[k]
        } by {
            if i < k < next {
                lemma_off_stride(i - start, k - i, prime as int);
            }
        }
        if next < len {
            proof {
                vstd::arithmetic::div_mod::lemma_add_mod_noop(i - start, prime as int, prime as int);
                vstd::arithmetic::div_mod::lemma_mod_self_0(prime as int);
                vstd::arithmetic::div_mod::lemma_small_mod(0, prime as nat);
            }
        }
        i = next;
    }
    assert(wheel.bits() =~= cleared(bits0, start, prime as int));
}

proof fn lemma_off_stride(a: int, b: int, p: int)
    requires
        a >= 0,
        p > 0,
        a % p == 0,
        0 < b < p,
    ensures
        (a + b) % p != 0,
{
    vstd::arithmetic::div_mod::lemma_add_mod_noop(a, b, p);
    vstd::arithmetic::div_mod::lemma_small_mod(b as nat, p as nat);
}

/// The first candidate of `wheel` at or after `from_index`, tagged with the
/// spoke's number.
pub fn calculate_next_prime(thread_id: usize, wheel: &MappedBitVec, from_index: usize) -> (r:
    Option<PrimeInfo>)
    requires
        wheel.wf(),
    ensures
        match r {
            Some((p, k, t)) => {
                &&& wheel.is_first_one(from_index as int, k as int)
                &&& p == wheel.value(k as int)
                &&& t == thread_id
            },
            None => wheel.none_from(from_index as int),
        },
{
    if let Some((next_index, p)) = wheel.first_one(from_index) {
        Some((p, next_index, thread_id))
    } else {
        None
    }
}

/// One spoke of the wheel: the candidacy bits of one residue class, with the
/// requests that the coordinator makes of it.
pub struct Spoke {
    thread_id: usize,
    modulus: usize,
    sub: usize,
    wheel: MappedBitVec,
}

impl Spoke {
    pub closed spec fn id(&self) -> nat {
        self.thread_id as nat
    }

    pub closed spec fn wheel(&self) -> MappedBitVec {
        self.wheel
    }

    pub closed spec fn wf(&self) -> bool {
        &&& self.wheel.wf()
        &&& self.modulus == self.wheel.modulus()
        &&& self.sub == self.wheel.offset() / self.wheel.modulus()
        &&& self.modulus >= 2
    }

    /// The spoke of `offset` modulo `modulus`, every term up to `max` set.
    pub fn new(thread_id: usize, offset: usize, modulus: usize, max: usize) -> (r: Spoke)
        requires
            modulus >= 2,
            span(offset as int, modulus as int, max as int) <= usize::MAX / 8,
        ensures
            r.wf(),
            r.id() == thread_id,
            r.wheel().offset() == offset,
            r.wheel().modulus() == modulus,
            r.wheel().bits() == Seq::new(
                span(offset as int, modulus as int, max as int) as nat,
                |_i: int| true,
            ),
    {
        let bits = initialize_vec(offset, modulus, max);
        proof {
            if offset <= max {
                let n = (max - offset) / (modulus as int);
                vstd::arithmetic::div_mod::lemma_fundamental_div_mod(
                    (max - offset) as int,
                    modulus as int,
                );
                vstd::arithmetic::div_mod::lemma_mod_pos_bound((max - offset) as int, modulus as int);
                assert(n * modulus <= max - offset) by (nonlinear_arith)
                    requires
                        (max - offset) == modulus * n + (max - offset) % (modulus as int),
                        (max - offset) % (modulus as int) >= 0,
                ;
            }
        }
        let wheel = MappedBitVec::new(bits, modulus, offset);
        Spoke { thread_id, modulus, sub: offset / modulus, wheel }
    }

    /// The first candidate at or after `from_index`.
    pub fn next_prime_from(&self, from_index: usize) -> (r: Option<PrimeInfo>)
        requires
            self.wf(),
        ensures
            match r {
                Some((p, k, t)) => {
                    &&& self.wheel().is_first_one(from_index as int, k as int)
                    &&& p == self.wheel().value(k as int)
                    &&& t == self.id()
                },
                None => self.wheel().none_from(from_index as int),
            },
    {
        calculate_next_prime(self.thread_id, &self.wheel, from_index)
    }

    /// Marks the multiples of `prime` in this spoke from `composite` onward.
    pub fn sieve(&mut self, prime: usize, composite: usize)
        requires
            old(self).wf(),
            prime > 0,
            composite >= old(self).wheel().offset(),
        ensures
            final(self).wf(),
            final(self).id() == old(self).id(),
            final(self).wheel().offset() == old(self).wheel().offset(),
            final(self).wheel().modulus() == old(self).wheel().modulus(),
            final(self).wheel().bits() == cleared(
                old(self).wheel().bits(),
                composite as int / old(self).wheel().modulus() as int - old(self).wheel().offset() as int
                    / old(self).wheel().modulus() as int,
                prime as int,
            ),
    {
        proof {
            vstd::arithmetic::div_mod::lemma_div_is_ordered(
                self.wheel.offset() as int,
                composite as int,
                self.modulus as int,
            );
        }
        sieve(prime, composite, self.modulus, self.sub, &mut self.wheel);
    }

    /// The values still set, ascending.
    pub fn to_vec(&self) -> (r: Vec<usize>)
        requires
            self.wf(),
        ensures
            r@.map_values(|v: usize| v as int) == self.wheel().values(),
    {
        self.wheel.to_vec()
    }
}

} // verus!
