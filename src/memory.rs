use std::collections::BTreeMap;

use vstd::arithmetic::power2::pow2;
use vstd::prelude::*;

use crate::is_less_than_tuple::fits_bits;
use crate::range_checker::MAX_RANGE_MAX_BITS;

verus! {

broadcast use vstd::std_specs::btree::group_btree_axioms, vstd::laws_cmp::group_laws_cmp;

/// Shape of the memory: words of `word_size` field elements, address spaces
/// below `2^as_max_bits`, pointers below `2^pointer_max_bits`, and timestamps
/// below `2^clk_max_bits`.
#[derive(Clone, Copy, Debug, PartialEq, Eq, Structural)]
pub struct MemoryConfig {
    pub word_size: usize,
    pub as_max_bits: usize,
    pub pointer_max_bits: usize,
    pub clk_max_bits: usize,
}

impl MemoryConfig {
    pub open spec fn wf(&self) -> bool {
        &&& self.word_size >= 1
        &&& self.as_max_bits <= MAX_RANGE_MAX_BITS
        &&& self.pointer_max_bits <= MAX_RANGE_MAX_BITS
        &&& self.clk_max_bits <= MAX_RANGE_MAX_BITS
    }

    pub open spec fn in_bounds(&self, address_space: u32, pointer: u32) -> bool {
        &&& address_space < pow2(self.as_max_bits as nat)
        &&& pointer < pow2(self.pointer_max_bits as nat)
    }

    /// Checks the configuration before any memory is built on it.
    pub fn validate(&self) -> (r: Result<(), MemoryError>)
        ensures
            r is Ok <==> self.wf(),
            r is Err ==> r == Err::<(), _>(MemoryError::InvalidConfig),
    {
        if self.word_size >= 1 && self.as_max_bits <= MAX_RANGE_MAX_BITS
            && self.pointer_max_bits <= MAX_RANGE_MAX_BITS && self.clk_max_bits
            <= MAX_RANGE_MAX_BITS {
            Ok(())
        } else {
            Err(MemoryError::InvalidConfig)
        }
    }

    pub fn check_bounds(&self, address_space: u32, pointer: u32) -> (r: bool)
        ensures
            r == self.in_bounds(address_space, pointer),
    {
        fits_bits(address_space, self.as_max_bits) && fits_bits(pointer, self.pointer_max_bits)
    }
}

/// Why a memory operation or construction was refused.
#[derive(Clone, Copy, Debug, PartialEq, Eq, Structural)]
pub enum MemoryError {
    /// The configuration breaks a bound (see `MemoryConfig::validate`).
    InvalidConfig,
    /// The address space or pointer lies outside the configured bounds.
    AddressOutOfBounds,
    /// A word of the wrong length was written.
    WrongWordSize,
    /// The timestamp counter reached its configured width.
    TimestampOverflow,
}

/// The all-zero word: what a never-written cell holds.
pub open spec fn zeros(n: nat) -> Seq<u32> {
    Seq::new(n, |i: int| 0u32)
}

pub fn zero_word(n: usize) -> (r: Vec<u32>)
    ensures
        r@ == zeros(n as nat),
{
    let mut v: Vec<u32> = Vec::with_capacity(n);
    let mut i: usize = 0;
    while i < n
        invariant
            i <= n,
            v@ == Seq::new(i as nat, |j: int| 0u32),
        decreases n - i,
    {
        v.push(0);
        i += 1;
        assert(v@ =~= Seq::new(i as nat, |j: int| 0u32));
    }
    v
}

pub fn copy_word(w: &Vec<u32>) -> (r: Vec<u32>)
    ensures
        r@ == w@,
{
    let mut v: Vec<u32> = Vec::with_capacity(w.len());
    let mut i: usize = 0;
    while i < w.len()
        invariant
            i <= w@.len(),
            v@ == w@.take(i as int),
        decreases w@.len() - i,
    {
        v.push(w[i]);
        i += 1;
        assert(v@ =~= w@.take(i as int));
    }
    assert(w@.take(w@.len() as int) =~= w@);
    v
}

/// Value of cell `c` in an image, the zero word where the image holds none.
pub open spec fn cell_value(image: Map<(u32, u32), Seq<u32>>, word_size: nat, c: (u32, u32)) -> Seq<
    u32,
> {
    if image.contains_key(c) {
        image[c]
    } else {
        zeros(word_size)
    }
}

/// A memory state: the words of the cells that hold one, every other cell
/// holding the zero word.
pub struct MemoryImage {
    config: MemoryConfig,
    cells: BTreeMap<(u32, u32), Vec<u32>>,
    /// The cells of `cells`, in the order they were first stored.
    stored: Vec<(u32, u32)>,
}

impl MemoryImage {
    pub closed spec fn config(&self) -> MemoryConfig {
        self.config
    }

    /// The stored words.
    pub closed spec fn image(&self) -> Map<(u32, u32), Seq<u32>> {
        self.cells@.map_values(|w: Vec<u32>| w@)
    }

    pub open spec fn word_size(&self) -> nat {
        self.config().word_size as nat
    }

    pub open spec fn value(&self, c: (u32, u32)) -> Seq<u32> {
        cell_value(self.image(), self.word_size(), c)
    }

    pub closed spec fn wf(&self) -> bool {
        &&& self.config.wf()
        &&& forall|c: (u32, u32)|
            #[trigger] self.cells@.contains_key(c) ==> {
                &&& self.cells@[c]@.len() == self.config.word_size
                &&& self.config.in_bounds(c.0, c.1)
            }
        &&& forall|c: (u32, u32)| #[trigger] self.cells@.contains_key(c) <==> self.stored@.contains(c)
    }

    pub proof fn lemma_wf(&self)
        requires
            self.wf(),
        ensures
            self.config().wf(),
            forall|c: (u32, u32)|
                #[trigger] self.image().contains_key(c) ==> self.image()[c].len()
                    == self.word_size() && self.config().in_bounds(c.0, c.1),
            forall|c: (u32, u32)| #[trigger] self.value(c).len() == self.word_size(),
    {
        assert forall|c: (u32, u32)| #[trigger] self.value(c).len() == self.word_size() by {
            if self.image().contains_key(c) {
                assert(self.cells@.contains_key(c));
            }
        }
    }

    /// An image of zero words.
    pub fn new(config: MemoryConfig) -> (r: Result<Self, MemoryError>)
        ensures
            r is Ok <==> config.wf(),
            r is Err ==> r == Err::<Self, _>(MemoryError::InvalidConfig),
            r is Ok ==> r->Ok_0.wf() && r->Ok_0.config() == config && r->Ok_0.image()
                == Map::<(u32, u32), Seq<u32>>::empty(),
    {
        match config.validate() {
            Ok(()) => {},
            Err(e) => {
                return Err(e);
            },
        }
        let r = MemoryImage { config, cells: BTreeMap::new(), stored: Vec::new() };
        assert(r.image() =~= Map::<(u32, u32), Seq<u32>>::empty());
        Ok(r)
    }

    pub fn get_config(&self) -> (r: MemoryConfig)
        ensures
            r == self.config(),
    {
        self.config
    }

    /// A copy of the image.
    pub fn duplicate(&self) -> (r: Self)
        requires
            self.wf(),
        ensures
            r.wf(),
            r.config() == self.config(),
            r.image() == self.image(),
    {
        let mut stored: Vec<(u32, u32)> = Vec::with_capacity(self.stored.len());
        let mut i: usize = 0;
        while i < self.stored.len()
            invariant
                i <= self.stored@.len(),
                stored@ == self.stored@.take(i as int),
            decreases self.stored@.len() - i,
        {
            stored.push(self.stored[i]);
            i += 1;
            assert(stored@ =~= self.stored@.take(i as int));
        }
        assert(self.stored@.take(self.stored@.len() as int) =~= self.stored@);
        MemoryImage { config: self.config, cells: self.cells.clone(), stored }
    }

    /// Every cell the image holds a word for, each once or more.
    pub fn stored_cells(&self) -> (r: &Vec<(u32, u32)>)
        requires
            self.wf(),
        ensures
            forall|c: (u32, u32)| #[trigger] self.image().contains_key(c) ==> r@.contains(c),
            forall|i: int| 0 <= i < r@.len() ==> self.image().contains_key(#[trigger] r@[i]),
    {
        assert forall|i: int| 0 <= i < self.stored@.len() implies self.image().contains_key(
            #[trigger] self.stored@[i],
        ) by {
            assert(self.stored@.contains(self.stored@[i]));
        }
        &self.stored
    }

    /// The word at a cell.
    pub fn get(&self, address_space: u32, pointer: u32) -> (r: Vec<u32>)
        requires
            self.wf(),
        ensures
            r@ == self.value((address_space, pointer)),
    {
        match self.cells.get(&(address_space, pointer)) {
            Some(w) => copy_word(w),
            None => zero_word(self.config.word_size),
        }
    }

    /// Stores a word at a cell.
    pub fn set(&mut self, address_space: u32, pointer: u32, word: Vec<u32>) -> (r: Result<
        (),
        MemoryError,
    >)
        requires
            old(self).wf(),
        ensures
            final(self).wf(),
            final(self).config() == old(self).config(),
            !old(self).config().in_bounds(address_space, pointer) ==> r == Err::<(), _>(
                MemoryError::AddressOutOfBounds,
            ),
            old(self).config().in_bounds(address_space, pointer) && word@.len()
                != old(self).word_size() ==> r == Err::<(), _>(MemoryError::WrongWordSize),
            old(self).config().in_bounds(address_space, pointer) && word@.len()
                == old(self).word_size() ==> r is Ok,
            r is Ok ==> final(self).image() == old(self).image().insert(
                (address_space, pointer),
                word@,
            ),
            r is Err ==> final(self).image() == old(self).image(),
    {
        if !self.config.check_bounds(address_space, pointer) {
            return Err(MemoryError::AddressOutOfBounds);
        }
        if word.len() != self.config.word_size {
            return Err(MemoryError::WrongWordSize);
        }
        let ghost w = word@;
        let c = (address_space, pointer);
        if !self.cells.contains_key(&c) {
            self.stored.push(c);
        }
        self.cells.insert(c, word);
        proof {
            assert forall|d: (u32, u32)| #[trigger] self.cells@.contains_key(d) <==> self.stored@.contains(d) by {
                if self.stored@.contains(d) && d != c {
                    let k = choose|k: int| 0 <= k < self.stored@.len() && self.stored@[k] == d;
                    assert(old(self).stored@[k] == d);
                }
                if old(self).stored@.contains(d) {
                    let k = choose|k: int| 0 <= k < old(self).stored@.len() && old(self).stored@[k] == d;
                    assert(self.stored@[k] == d);
                }
                if d == c && !old(self).cells@.contains_key(c) {
                    assert(self.stored@[self.stored@.len() - 1] == c);
                }
            }
        }
        assert(self.image() =~= old(self).image().insert((address_space, pointer), w));
        Ok(())
    }
}

} // verus!
