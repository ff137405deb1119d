use vstd::arithmetic::power2::pow2;
use vstd::prelude::*;

use crate::memory::{cell_value, copy_word, MemoryConfig, MemoryError, MemoryImage};

verus! {

/// Whether an access read or wrote its cell.
#[derive(Clone, Copy, Debug, PartialEq, Eq, Structural)]
pub enum AccessKind {
    Read,
    Write,
}

/// One primitive memory operation, as the controller recorded it.
#[derive(Clone, Debug)]
pub struct AccessRecord {
    pub address_space: u32,
    pub pointer: u32,
    pub timestamp: u64,
    pub kind: AccessKind,
    /// The word read, or the word written.
    pub data: Vec<u32>,
    /// The word the cell held just before the access.
    pub prev_data: Vec<u32>,
}

/// An access record with its words as sequences.
pub struct AccessView {
    pub address_space: u32,
    pub pointer: u32,
    pub timestamp: u64,
    pub kind: AccessKind,
    pub data: Seq<u32>,
    pub prev_data: Seq<u32>,
}

impl View for AccessRecord {
    type V = AccessView;

    open spec fn view(&self) -> AccessView {
        AccessView {
            address_space: self.address_space,
            pointer: self.pointer,
            timestamp: self.timestamp,
            kind: self.kind,
            data: self.data@,
            prev_data: self.prev_data@,
        }
    }
}

pub open spec fn log_view(log: Seq<AccessRecord>) -> Seq<AccessView> {
    log.map_values(|r: AccessRecord| r@)
}

pub open spec fn cell_of(r: AccessView) -> (u32, u32) {
    (r.address_space, r.pointer)
}

/// What cell `c` holds after the accesses of `log`, starting from `init`.
pub open spec fn last_value(
    init: Map<(u32, u32), Seq<u32>>,
    word_size: nat,
    log: Seq<AccessView>,
    c: (u32, u32),
) -> Seq<u32>
    decreases log.len(),
{
    if log.len() == 0 {
        cell_value(init, word_size, c)
    } else if cell_of(log.last()) == c {
        log.last().data
    } else {
        last_value(init, word_size, log.drop_last(), c)
    }
}

/// Access `i` of `log` carries timestamp `start + i`, and saw in its cell the
/// value that the accesses before it left there; a read returned that value.
pub open spec fn access_consistent(
    init: Map<(u32, u32), Seq<u32>>,
    word_size: nat,
    start: int,
    log: Seq<AccessView>,
    i: int,
) -> bool {
    let r = log[i];
    let before = last_value(init, word_size, log.take(i), cell_of(r));
    &&& r.timestamp == start + i
    &&& r.prev_data == before
    &&& r.kind == AccessKind::Read ==> r.data == before
    &&& r.data.len() == word_size
}

pub open spec fn log_consistent(
    init: Map<(u32, u32), Seq<u32>>,
    word_size: nat,
    start: int,
    log: Seq<AccessView>,
) -> bool {
    forall|i: int| 0 <= i < log.len() ==> #[trigger] access_consistent(init, word_size, start, log, i)
}

/// Issues timestamps, performs reads and writes on the memory, and records
/// every access in an append-only log. Every access of one word gets its own
/// timestamp, so no two records of a segment share a sort key and the sorted
/// view needs no tie-break.
pub struct MemoryController {
    config: MemoryConfig,
    start_timestamp: u64,
    timestamp: u64,
    memory: MemoryImage,
    initial: Ghost<Map<(u32, u32), Seq<u32>>>,
    log: Vec<AccessRecord>,
}

impl MemoryController {
    pub closed spec fn config(&self) -> MemoryConfig {
        self.config
    }

    pub open spec fn word_size(&self) -> nat {
        self.config().word_size as nat
    }

    /// The memory the segment started from.
    pub closed spec fn initial_image(&self) -> Map<(u32, u32), Seq<u32>> {
        self.initial@
    }

    /// The timestamp of the first access of this segment.
    pub closed spec fn start(&self) -> int {
        self.start_timestamp as int
    }

    /// The next timestamp to be issued.
    pub closed spec fn current_timestamp(&self) -> int {
        self.timestamp as int
    }

    pub closed spec fn log(&self) -> Seq<AccessView> {
        log_view(self.log@)
    }

    /// The current memory.
    pub closed spec fn memory(&self) -> MemoryImage {
        self.memory
    }

    pub open spec fn value(&self, c: (u32, u32)) -> Seq<u32> {
        self.memory().value(c)
    }

    pub closed spec fn wf(&self) -> bool {
        &&& self.config.wf()
        &&& self.memory.wf()
        &&& self.memory.config() == self.config
        &&& self.timestamp == self.start_timestamp + self.log@.len()
        &&& self.timestamp <= pow2(self.config.clk_max_bits as nat)
        &&& forall|c: (u32, u32)|
            #[trigger] cell_value(self.initial@, self.config.word_size as nat, c).len()
                == self.config.word_size
        &&& log_consistent(self.initial@, self.word_size(), self.start(), self.log())
        &&& forall|c: (u32, u32)|
            #[trigger] self.memory.value(c) == last_value(
                self.initial@,
                self.word_size(),
                self.log(),
                c,
            )
        &&& forall|i: int|
            0 <= i < self.log@.len() ==> self.config.in_bounds(
                #[trigger] self.log@[i].address_space,
                self.log@[i].pointer,
            )
    }

    /// What a well-formed controller knows of its log and memory.
    pub proof fn lemma_log_facts(&self)
        requires
            self.wf(),
        ensures
            self.config().wf(),
            self.memory().wf(),
            self.memory().config() == self.config(),
            log_consistent(self.initial_image(), self.word_size(), self.start(), self.log()),
            forall|c: (u32, u32)|
                #[trigger] self.value(c) == last_value(
                    self.initial_image(),
                    self.word_size(),
                    self.log(),
                    c,
                ),
            forall|i: int|
                0 <= i < self.log().len() ==> {
                    &&& self.config().in_bounds(
                        (#[trigger] self.log()[i]).address_space,
                        self.log()[i].pointer,
                    )
                    &&& self.log()[i].timestamp < pow2(self.config().clk_max_bits as nat)
                },
            self.current_timestamp() == self.start() + self.log().len(),
            self.current_timestamp() <= pow2(self.config().clk_max_bits as nat),
    {
        assert forall|i: int| 0 <= i < self.log().len() implies {
            &&& self.config().in_bounds(
                (#[trigger] self.log()[i]).address_space,
                self.log()[i].pointer,
            )
            &&& self.log()[i].timestamp < pow2(self.config().clk_max_bits as nat)
        } by {
            assert(self.log@[i]@ == self.log()[i]);
            assert(access_consistent(
                self.initial@,
                self.word_size(),
                self.start(),
                self.log(),
                i,
            ));
        }
    }

    /// A controller over zeroed memory whose first access gets timestamp 0.
    pub fn new(config: MemoryConfig) -> (r: Result<Self, MemoryError>)
        ensures
            r is Ok <==> config.wf(),
            r is Err ==> r == Err::<Self, _>(MemoryError::InvalidConfig),
            r is Ok ==> {
                let c = r->Ok_0;
                &&& c.wf()
                &&& c.config() == config
                &&& c.initial_image() == Map::<(u32, u32), Seq<u32>>::empty()
                &&& c.start() == 0
                &&& c.current_timestamp() == 0
                &&& c.log().len() == 0
            },
    {
        match MemoryImage::new(config) {
            Ok(memory) => Self::with_initial_memory(memory, 0),
            Err(e) => Err(e),
        }
    }

    /// A controller starting from `memory`, whose first access gets timestamp
    /// `start_timestamp`.
    pub fn with_initial_memory(memory: MemoryImage, start_timestamp: u64) -> (r: Result<
        Self,
        MemoryError,
    >)
        requires
            memory.wf(),
        ensures
            start_timestamp > pow2(memory.config().clk_max_bits as nat) ==> r == Err::<Self, _>(
                MemoryError::TimestampOverflow,
            ),
            start_timestamp <= pow2(memory.config().clk_max_bits as nat) ==> r is Ok,
            r is Ok ==> {
                let c = r->Ok_0;
                &&& c.wf()
                &&& c.config() == memory.config()
                &&& c.initial_image() == memory.image()
                &&& c.start() == start_timestamp
                &&& c.current_timestamp() == start_timestamp
                &&& c.log().len() == 0
                &&& c.memory() == memory
            },
    {
        let config = memory.get_config();
        proof {
            memory.lemma_wf();
        }
        if start_timestamp > clock_limit(config.clk_max_bits) {
            return Err(MemoryError::TimestampOverflow);
        }
        let ghost init = memory.image();
        let r = MemoryController {
            config,
            start_timestamp,
            timestamp: start_timestamp,
            memory,
            initial: Ghost(init),
            log: Vec::new(),
        };
        assert(r.log() =~= Seq::<AccessView>::empty());
        Ok(r)
    }

    /// The next timestamp to be issued.
    pub fn timestamp(&self) -> (r: u64)
        ensures
            r == self.current_timestamp(),
    {
        self.timestamp
    }

    pub fn get_config(&self) -> (r: MemoryConfig)
        ensures
            r == self.config(),
    {
        self.config
    }

    pub fn access_log(&self) -> (r: &Vec<AccessRecord>)
        ensures
            log_view(r@) == self.log(),
    {
        &self.log
    }

    /// Issues a timestamp for an access to `(address_space, pointer)` and
    /// logs it; `data` is `None` for a read and the new word for a write.
    fn access(&mut self, address_space: u32, pointer: u32, data: Option<Vec<u32>>) -> (r: Result<
        AccessRecord,
        MemoryError,
    >)
        requires
            old(self).wf(),
        ensures
            final(self).wf(),
            access_outcome(*old(self), *final(self), address_space, pointer, opt_view(data), r),
    {
        let c = (address_space, pointer);
        if !self.config.check_bounds(address_space, pointer) {
            return Err(MemoryError::AddressOutOfBounds);
        }
        match &data {
            Some(w) => {
                if w.len() != self.config.word_size {
                    return Err(MemoryError::WrongWordSize);
                }
            },
            None => {},
        }
        if self.timestamp >= clock_limit(self.config.clk_max_bits) {
            return Err(MemoryError::TimestampOverflow);
        }
        proof {
            self.memory.lemma_wf();
        }
        let ghost old_log = self.log();
        let prev = self.memory.get(address_space, pointer);
        let (kind, new_data) = match data {
            Some(w) => {
                let keep = copy_word(&w);
                let res = self.memory.set(address_space, pointer, w);
                assert(res is Ok);
                (AccessKind::Write, keep)
            },
            None => (AccessKind::Read, copy_word(&prev)),
        };
        let record = AccessRecord {
            address_space,
            pointer,
            timestamp: self.timestamp,
            kind,
            data: copy_word(&new_data),
            prev_data: prev,
        };
        let out = AccessRecord {
            address_space,
            pointer,
            timestamp: self.timestamp,
            kind,
            data: new_data,
            prev_data: copy_word(&record.prev_data),
        };
        let ghost rv = record@;
        self.log.push(record);
        self.timestamp = self.timestamp + 1;
        proof {
            assert(self.log() =~= old_log.push(rv));
            assert(self.log().take(old_log.len() as int) =~= old_log);
            assert forall|i: int| 0 <= i < self.log().len() implies #[trigger] access_consistent(
                self.initial@,
                self.word_size(),
                self.start(),
                self.log(),
                i,
            ) by {
                if i < old_log.len() {
                    assert(self.log().take(i) =~= old_log.take(i));
                    assert(access_consistent(
                        self.initial@,
                        self.word_size(),
                        self.start(),
                        old_log,
                        i,
                    ));
                }
            }
            assert forall|d: (u32, u32)| #[trigger] self.memory.value(d) == last_value(
                self.initial@,
                self.word_size(),
                self.log(),
                d,
            ) by {
                assert(self.log().drop_last() =~= old_log);
                assert(old(self).memory.value(d) == last_value(
                    self.initial@,
                    self.word_size(),
                    old_log,
                    d,
                ));
            }
            assert forall|i: int| 0 <= i < self.log@.len() implies self.config.in_bounds(
                #[trigger] self.log@[i].address_space,
                self.log@[i].pointer,
            ) by {
                if i < old_log.len() {
                    assert(self.log@[i] == old(self).log@[i]);
                }
            }
        }
        Ok(out)
    }

    /// Reads a cell; a cell never written holds the zero word.
    pub fn read(&mut self, address_space: u32, pointer: u32) -> (r: Result<
        AccessRecord,
        MemoryError,
    >)
        requires
            old(self).wf(),
        ensures
            final(self).wf(),
            access_outcome(*old(self), *final(self), address_space, pointer, None, r),
    {
        self.access(address_space, pointer, None)
    }

    /// Writes a word to a cell; the record holds the word the cell held before.
    pub fn write(&mut self, address_space: u32, pointer: u32, data: Vec<u32>) -> (r: Result<
        AccessRecord,
        MemoryError,
    >)
        requires
            old(self).wf(),
        ensures
            final(self).wf(),
            access_outcome(*old(self), *final(self), address_space, pointer, Some(data@), r),
    {
        self.access(address_space, pointer, Some(data))
    }

    /// Ends the segment, handing out its access log and final memory.
    pub fn finalize(self) -> (r: (Vec<AccessRecord>, MemoryImage))
        requires
            self.wf(),
        ensures
            log_view(r.0@) == self.log(),
            r.1 == self.memory(),
            r.1.wf(),
    {
        (self.log, self.memory)
    }
}

pub open spec fn opt_view(data: Option<Vec<u32>>) -> Option<Seq<u32>> {
    match data {
        Some(w) => Some(w@),
        None => None,
    }
}

/// What one access does: which error it fails with and when, and otherwise
/// the record it returns and logs, the timestamp it consumes and the cell it
/// changes. `data` is `None` for a read and the word written for a write.
pub open spec fn access_outcome(
    pre: MemoryController,
    post: MemoryController,
    address_space: u32,
    pointer: u32,
    data: Option<Seq<u32>>,
    r: Result<AccessRecord, MemoryError>,
) -> bool {
    let c = (address_space, pointer);
    let in_bounds = pre.config().in_bounds(address_space, pointer);
    let size_ok = data matches Some(w) ==> w.len() == pre.word_size();
    let clock_ok = pre.current_timestamp() < pow2(pre.config().clk_max_bits as nat);
    &&& post.config() == pre.config()
    &&& post.initial_image() == pre.initial_image()
    &&& post.start() == pre.start()
    &&& !in_bounds ==> r == Err::<AccessRecord, _>(MemoryError::AddressOutOfBounds)
    &&& in_bounds && !size_ok ==> r == Err::<AccessRecord, _>(MemoryError::WrongWordSize)
    &&& in_bounds && size_ok && !clock_ok ==> r == Err::<AccessRecord, _>(
        MemoryError::TimestampOverflow,
    )
    &&& in_bounds && size_ok && clock_ok ==> r is Ok
    &&& r is Err ==> post.log() == pre.log() && post.current_timestamp() == pre.current_timestamp()
        && post.memory() == pre.memory()
    &&& r is Ok ==> {
        let rec = r->Ok_0@;
        &&& rec.address_space == address_space
        &&& rec.pointer == pointer
        &&& rec.timestamp == pre.current_timestamp()
        &&& rec.prev_data == pre.value(c)
        &&& match data {
            Some(w) => rec.kind == AccessKind::Write && rec.data == w && post.memory().image()
                == pre.memory().image().insert(c, w),
            None => rec.kind == AccessKind::Read && rec.data == pre.value(c) && post.memory()
                == pre.memory(),
        }
        &&& post.log() == pre.log().push(rec)
        &&& post.current_timestamp() == pre.current_timestamp() + 1
    }
}

/// `2^bits`, the first timestamp a clock of that width cannot issue.
pub fn clock_limit(bits: usize) -> (r: u64)
    requires
        bits <= 30,
    ensures
        r == pow2(bits as nat),
{
    proof {
        vstd::bits::lemma_u64_pow2_no_overflow(bits as nat);
        assert(1 * pow2(bits as nat) == pow2(bits as nat));
        vstd::bits::lemma_u64_shl_is_mul(1, bits as u64);
    }
    1u64 << bits as u64
}

} // verus!
