use bitvec::vec::BitVec;
use vstd::prelude::*;

verus! {

/// Number of `true` entries of a bit sequence.
pub open spec fn count_true(s: Seq<bool>) -> nat
    decreases s.len(),
{
    if s.len() == 0 {
        0
    } else {
        count_true(s.drop_last()) + if s.last() { 1nat } else { 0nat }
    }
}

/// Indices of the `true` entries of a bit sequence, in ascending order.
pub open spec fn ones(s: Seq<bool>) -> Seq<int>
    decreases s.len(),
{
    if s.len() == 0 {
        Seq::empty()
    } else if s.last() {
        ones(s.drop_last()).push(s.len() - 1)
    } else {
        ones(s.drop_last())
    }
}

/// `ones` lists exactly the set indices, each once, in strictly ascending order.
pub proof fn lemma_ones(s: Seq<bool>)
    ensures
        forall|k: int| 0 <= k < ones(s).len() ==> 0 <= #[trigger] ones(s)[k] < s.len() && s[ones(
            s,
        )[k]],
        forall|k: int, l: int| 0 <= k < l < ones(s).len() ==> ones(s)[k] < ones(s)[l],
        forall|i: int| 0 <= i < s.len() && s[i] ==> ones(s).contains(i),
    decreases s.len(),
{
    if s.len() > 0 {
        let t = s.drop_last();
        lemma_ones(t);
        assert forall|i: int| 0 <= i < s.len() && s[i] implies ones(s).contains(i) by {
            if i < s.len() - 1 {
                assert(t[i] == s[i]);
                let k = choose|k: int| 0 <= k < ones(t).len() && ones(t)[k] == i;
                if s.last() {
                    assert(ones(s)[k] == i);
                }
            } else {
                assert(ones(s)[ones(s).len() - 1] == i);
            }
        }
    }
}

/// Clearing a bit that is already clear changes nothing.
pub proof fn lemma_clear_idempotent(bits: Seq<bool>, i: int)
    requires
        0 <= i < bits.len(),
    ensures
        bits.update(i, false).update(i, false) == bits.update(i, false),
{
    assert(bits.update(i, false).update(i, false) =~= bits.update(i, false));
}

/// A growable sequence of bits, stored densely.
#[verifier::external_body]
pub struct Bits {
    v: BitVec,
}

/// The bits that a `Bits` holds, in index order.
pub uninterp spec fn bits_of(b: Bits) -> Seq<bool>;

/// Relies on `BitVec::repeat`: `len` copies of `bit`; it panics when `len`
/// exceeds `usize::MAX >> 3`, the most bits a `BitVec` can address.
#[verifier::external_body]
fn bits_repeat(bit: bool, len: usize) -> (r: Bits)
    requires
        len <= usize::MAX / 8,
    ensures
        bits_of(r) == Seq::new(len as nat, |_i: int| bit),
{
    Bits { v: BitVec::repeat(bit, len) }
}

/// Relies on `BitVec::len`: the number of bits held.
#[verifier::external_body]
fn bits_len(b: &Bits) -> (r: usize)
    ensures
        r == bits_of(*b).len(),
{
    b.v.len()
}

/// Relies on `BitSlice::set`: writes one bit; it panics out of bounds.
#[verifier::external_body]
fn bits_set(b: &mut Bits, index: usize, value: bool)
    requires
        index < bits_of(*old(b)).len(),
    ensures
        bits_of(*final(b)) == bits_of(*old(b)).update(index as int, value),
{
    b.v.set(index, value)
}

/// Relies on `BitSlice::count_ones`: the number of set bits.
#[verifier::external_body]
fn bits_count_ones(b: &Bits) -> (r: usize)
    ensures
        r == count_true(bits_of(*b)),
{
    b.v.count_ones()
}

/// Relies on indexing a `BitVec` by `from..` (it panics when `from` exceeds the
/// length) and `BitSlice::first_one`: the position, counted from `from`, of the
/// first set bit of that tail.
#[verifier::external_body]
fn bits_first_one_after(b: &Bits, from: usize) -> (r: Option<usize>)
    requires
        from <= bits_of(*b).len(),
    ensures
        match r {
            Some(k) => {
                &&& from + k < bits_of(*b).len()
                &&& bits_of(*b)[from + k]
                &&& forall|j: int| from <= j < from + k ==> !bits_of(*b)[j]
            },
            None => forall|j: int| from <= j < bits_of(*b).len() ==> !bits_of(*b)[j],
        },
{
    b.v[from..].first_one()
}

/// Relies on `BitSlice::iter_ones`: the indices of the set bits, ascending.
#[verifier::external_body]
fn bits_iter_ones(b: &Bits) -> (r: Vec<usize>)
    ensures
        r@.map_values(|i: usize| i as int) == ones(bits_of(*b)),
{
    b.v.iter_ones().collect()
}

impl Bits {
    /// `len` bits, each equal to `bit`.
    pub fn repeat(bit: bool, len: usize) -> (r: Bits)
        requires
            len <= usize::MAX / 8,
        ensures
            bits_of(r) == Seq::new(len as nat, |_i: int| bit),
    {
        bits_repeat(bit, len)
    }
}

/// Candidacy bits over the arithmetic progression `offset + i * modulus`.
pub struct MappedBitVec {
    vec: Bits,
    offset: usize,
    modulus: usize,
}

impl MappedBitVec {
    pub closed spec fn bits(&self) -> Seq<bool> {
        bits_of(self.vec)
    }

    pub closed spec fn offset(&self) -> nat {
        self.offset as nat
    }

    pub closed spec fn modulus(&self) -> nat {
        self.modulus as nat
    }

    /// The value that index `i` stands for.
    pub open spec fn value(&self, i: int) -> int {
        self.offset() + i * self.modulus()
    }

    /// Every index in range maps to a value that fits in a `usize`.
    pub open spec fn wf(&self) -> bool {
        self.bits().len() == 0 || self.value(self.bits().len() - 1) <= usize::MAX
    }

    /// The values of the set bits, ascending by index.
    pub open spec fn values(&self) -> Seq<int> {
        ones(self.bits()).map_values(|i: int| self.value(i))
    }

    /// What extraction yields: the values of exactly the set positions, each
    /// once, in strictly ascending order.
    pub proof fn lemma_values(&self)
        requires
            self.modulus() > 0,
        ensures
            forall|a: int, b: int|
                0 <= a < b < self.values().len() ==> self.values()[a] < self.values()[b],
            forall|i: int|
                0 <= i < self.bits().len() ==> (self.bits()[i] <==> self.values().contains(
                    self.value(i),
                )),
    {
        let o = ones(self.bits());
        lemma_ones(self.bits());
        assert forall|a: int, b: int| 0 <= a < b < self.values().len() implies self.values()[a]
            < self.values()[b] by {
            assert(o[a] < o[b]);
            assert(o[a] * self.modulus() < o[b] * self.modulus()) by (nonlinear_arith)
                requires
                    o[a] < o[b],
                    self.modulus() > 0,
            ;
        }
        assert forall|i: int| 0 <= i < self.bits().len() implies (self.bits()[i]
            <==> self.values().contains(self.value(i))) by {
            if self.bits()[i] {
                let k = choose|k: int| 0 <= k < o.len() && o[k] == i;
                assert(self.values()[k] == self.value(i));
            }
            if self.values().contains(self.value(i)) {
                let k = choose|k: int| 0 <= k < self.values().len() && self.values()[k] == self.value(i);
                assert(self.value(o[k]) == self.value(i));
                assert(o[k] == i) by (nonlinear_arith)
                    requires
                        self.offset() + o[k] * self.modulus() == self.offset() + i * self.modulus(),
                        self.modulus() > 0,
                ;
            }
        }
    }

    /// `k` is the first set index at or after `from`.
    pub open spec fn is_first_one(&self, from: int, k: int) -> bool {
        &&& from <= k < self.bits().len()
        &&& self.bits()[k]
        &&& forall|j: int| from <= j < k ==> !self.bits()[j]
    }

    /// No index at or after `from` is set.
    pub open spec fn none_from(&self, from: int) -> bool {
        forall|j: int| from <= j < self.bits().len() ==> !self.bits()[j]
    }

    pub fn new(vec: Bits, modulus: usize, offset: usize) -> (r: MappedBitVec)
        requires
            bits_of(vec).len() == 0 || offset + (bits_of(vec).len() - 1) * modulus <= usize::MAX,
        ensures
            r.bits() == bits_of(vec),
            r.offset() == offset,
            r.modulus() == modulus,
            r.wf(),
    {
        MappedBitVec { vec, offset, modulus }
    }

    /// Number of positions, set or not.
    pub fn max_len(&self) -> (r: usize)
        ensures
            r == self.bits().len(),
    {
        bits_len(&self.vec)
    }

    /// Number of set positions.
    pub fn len(&self) -> (r: usize)
        ensures
            r == count_true(self.bits()),
    {
        bits_count_ones(&self.vec)
    }

    pub fn is_empty(&self) -> (r: bool)
        ensures
            r == (count_true(self.bits()) == 0),
    {
        self.len() == 0
    }

    /// Writes position `index`; a position past the end is left alone.
    pub fn set(&mut self, index: usize, val: bool)
        ensures
            final(self).bits() == if index < old(self).bits().len() {
                old(self).bits().update(index as int, val)
            } else {
                old(self).bits()
            },
            final(self).offset() == old(self).offset(),
            final(self).modulus() == old(self).modulus(),
    {
        if index < bits_len(&self.vec) {
            bits_set(&mut self.vec, index, val);
        }
    }

    /// Clears position `index`; a position past the end is left alone.
    pub fn clear(&mut self, index: usize)
        ensures
            final(self).bits() == if index < old(self).bits().len() {
                old(self).bits().update(index as int, false)
            } else {
                old(self).bits()
            },
            final(self).offset() == old(self).offset(),
            final(self).modulus() == old(self).modulus(),
    {
        self.set(index, false);
    }

    pub fn get(&self, index: usize) -> (r: usize)
        requires
            self.value(index as int) <= usize::MAX,
        ensures
            r == self.value(index as int),
    {
        self.apply(index)
    }

    fn apply(&self, i: usize) -> (r: usize)
        requires
            self.value(i as int) <= usize::MAX,
        ensures
            r == self.value(i as int),
    {
        proof {
            assert(0 <= i * self.modulus <= i * self.modulus + self.offset) by (nonlinear_arith);
        }
        i * self.modulus + self.offset
    }

    proof fn lemma_value_fits(&self, i: int)
        requires
            self.wf(),
            0 <= i < self.bits().len(),
        ensures
            self.value(i) <= usize::MAX,
    {
        let n = self.bits().len() - 1;
        assert(i * self.modulus() <= n * self.modulus()) by (nonlinear_arith)
            requires
                i <= n,
        ;
    }

    /// The first set index at or after `next_index`, with its value.
    pub fn first_one(&self, next_index: usize) -> (r: Option<(usize, usize)>)
        requires
            self.wf(),
        ensures
            self.bits().len() <= usize::MAX,
            match r {
                Some((k, v)) => self.is_first_one(next_index as int, k as int) && v == self.value(
                    k as int,
                ),
                None => self.none_from(next_index as int),
            },
    {
        if next_index >= bits_len(&self.vec) {
            return None;
        }
        match bits_first_one_after(&self.vec, next_index) {
            Some(x) => {
                let next = x + next_index;
                proof {
                    self.lemma_value_fits(next as int);
                }
                Some((next, self.get(next)))
            },
            None => None,
        }
    }

    /// The values of all set positions, ascending.
    pub fn to_vec(&self) -> (r: Vec<usize>)
        requires
            self.wf(),
        ensures
            r@.map_values(|v: usize| v as int) == self.values(),
    {
        let idx = bits_iter_ones(&self.vec);
        proof {
            lemma_ones(self.bits());
        }
        let mut vec: Vec<usize> = Vec::with_capacity(idx.len());
        let mut k: usize = 0;
        while k < idx.len()
            invariant
                k <= idx.len(),
                idx@.map_values(|i: usize| i as int) == ones(self.bits()),
                self.wf(),
                vec@.map_values(|v: usize| v as int) == self.values().take(k as int),
                forall|m: int|
                    0 <= m < ones(self.bits()).len() ==> 0 <= #[trigger] ones(self.bits())[m]
                        < self.bits().len(),
            decreases idx.len() - k,
        {
            assert(idx@.map_values(|i: usize| i as int)[k as int] == idx@[k as int] as int);
            proof {
                self.lemma_value_fits(idx@[k as int] as int);
            }
            let v = self.apply(idx[k]);
            assert(self.values()[k as int] == self.value(ones(self.bits())[k as int]));
            let ghost before = vec@;
            vec.push(v);
            assert(vec@.map_values(|v: usize| v as int) =~= before.map_values(|v: usize| v as int).push(
                v as int,
            ));
            assert(self.values().take(k + 1) =~= self.values().take(k as int).push(
                self.values()[k as int],
            ));
            k = k + 1;
        }
        assert(self.values().take(k as int) =~= self.values());
        vec
    }

    /// Reads the positions one by one, from the first.
    pub fn into_iter(self) -> (r: MappedBitVecIterator)
        ensures
            r.index() == 0,
            r.source() == self,
    {
        MappedBitVecIterator { index: 0, vec: self }
    }
}

/// A cursor over the set positions of a `MappedBitVec`, in ascending order.
pub struct MappedBitVecIterator {
    index: usize,
    vec: MappedBitVec,
}

impl MappedBitVecIterator {
    pub closed spec fn index(&self) -> nat {
        self.index as nat
    }

    pub closed spec fn source(&self) -> MappedBitVec {
        self.vec
    }

    /// The value of the next set position at or after the cursor, if any.
    pub fn next(&mut self) -> (r: Option<usize>)
        requires
            old(self).source().wf(),
        ensures
            final(self).source() == old(self).source(),
            match r {
                Some(v) => {
                    let k = final(self).index() - 1;
                    &&& old(self).source().is_first_one(old(self).index() as int, k)
                    &&& v == old(self).source().value(k)
                },
                None => {
                    &&& old(self).source().none_from(old(self).index() as int)
                    &&& final(self).index() == old(self).index()
                },
            },
    {
        if let Some((index, prime)) = self.vec.first_one(self.index) {
            self.index = index + 1;
            Some(prime)
        } else {
            None
        }
    }
}

} // verus!
