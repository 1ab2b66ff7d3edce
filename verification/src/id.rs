//! Time-ordered 64-bit identifiers, bit layout (high to low): 42-bit
//! timestamp in milliseconds since the configured epoch, 5-bit node id,
//! 5-bit worker id, 12-bit sequence.  For a fixed generator instance,
//! successive identifiers are strictly increasing as unsigned integers.
use vstd::prelude::*;

use crate::epoch::unix_now;
use crate::error::Error;

verus! {

/// Largest representable timestamp: 42 bits of milliseconds.
pub const MAX_TIMESTAMP: u64 = 0x3FF_FFFF_FFFF;

/// Number of worker slots a process may hand out.
pub const WORKER_SLOTS: u8 = 32;

/// How many clock readings the generator is willing to spend waiting for
/// the next millisecond once a single millisecond's 4096 sequence numbers
/// are exhausted.  On any real clock the wait ends after a handful of
/// readings; a clock that stays frozen this long is reported as stuck.
pub const MAX_SPIN: u64 = 100_000_000;

/// The identifier's bit layout, as one packing function.
pub open spec fn pack(ts: u64, node: u8, worker: u8, seq: u16) -> u64 {
    (ts << 22) | ((node as u64) << 17) | ((worker as u64) << 12) | (seq as u64)
}

pub open spec fn spec_timestamp(v: u64) -> u64 {
    v >> 22
}

pub open spec fn spec_node_id(v: u64) -> u64 {
    (v >> 17) & 0x1F
}

pub open spec fn spec_worker_id(v: u64) -> u64 {
    (v >> 12) & 0x1F
}

pub open spec fn spec_sequence(v: u64) -> u64 {
    v & 0xFFF
}

/// Packing is inverted by the field extractors whenever each field is in
/// range: the bit-packing round trip.
pub proof fn lemma_pack_fields(ts: u64, node: u8, worker: u8, seq: u16)
    by (bit_vector)
    requires
        ts <= 0x3FF_FFFF_FFFFu64,
        node < 32,
        worker < 32,
        seq < 4096,
    ensures
        spec_timestamp(pack(ts, node, worker, seq)) == ts,
        spec_node_id(pack(ts, node, worker, seq)) == node,
        spec_worker_id(pack(ts, node, worker, seq)) == worker,
        spec_sequence(pack(ts, node, worker, seq)) == seq,
{
}

/// Identifiers order by (timestamp, sequence), lexicographically, when the
/// node and worker components agree.
pub proof fn lemma_pack_increases(ts1: u64, seq1: u16, ts2: u64, seq2: u16, node: u8, worker: u8)
    requires
        ts1 <= 0x3FF_FFFF_FFFFu64,
        ts2 <= 0x3FF_FFFF_FFFFu64,
        node < 32,
        worker < 32,
        seq1 < 4096,
        seq2 < 4096,
        ts1 < ts2 || (ts1 == ts2 && seq1 < seq2),
    ensures
        pack(ts1, node, worker, seq1) < pack(ts2, node, worker, seq2),
{
    if ts1 < ts2 {
        lemma_pack_increases_ts(ts1, seq1, ts2, seq2, node, worker);
    } else {
        lemma_pack_increases_seq(ts1, seq1, seq2, node, worker);
    }
}

proof fn lemma_pack_increases_ts(ts1: u64, seq1: u16, ts2: u64, seq2: u16, node: u8, worker: u8)
    by (bit_vector)
    requires
        ts1 < ts2,
        ts2 <= 0x3FF_FFFF_FFFFu64,
        node < 32,
        worker < 32,
        seq1 < 4096,
        seq2 < 4096,
    ensures
        pack(ts1, node, worker, seq1) < pack(ts2, node, worker, seq2),
{
}

proof fn lemma_pack_increases_seq(ts: u64, seq1: u16, seq2: u16, node: u8, worker: u8)
    by (bit_vector)
    requires
        ts <= 0x3FF_FFFF_FFFFu64,
        seq1 < seq2,
        seq2 < 4096,
    ensures
        pack(ts, node, worker, seq1) < pack(ts, node, worker, seq2),
{
}

/// The timestamp extractor always fits the 42-bit field.
proof fn lemma_extract_bounds(v: u64)
    by (bit_vector)
    ensures
        (v >> 22) <= 0x3FF_FFFF_FFFFu64,
        ((v >> 17) & 0x1F) < 32,
        ((v >> 12) & 0x1F) < 32,
{
}

/// A 64-bit, globally unique, roughly time-ordered identifier.
#[derive(Debug, Clone, Copy, Hash, PartialEq, Eq, PartialOrd, Ord, Structural)]
pub struct Snowflake(u64);

impl Snowflake {
    /// The packed 64-bit value.
    pub closed spec fn value(&self) -> u64 {
        self.0
    }

    pub fn new(v: u64) -> (r: Self)
        ensures
            r.value() == v,
    {
        Snowflake(v)
    }

    pub fn as_u64(&self) -> (r: u64)
        ensures
            r == self.value(),
    {
        self.0
    }

    /// Milliseconds since the configured epoch at which this identifier
    /// was minted.
    pub fn timestamp(&self) -> (r: u64)
        ensures
            r == spec_timestamp(self.value()),
            r <= MAX_TIMESTAMP,
    {
        proof {
            lemma_extract_bounds(self.0);
        }
        self.0 >> 22
    }

    /// Seconds since the Unix epoch at which this identifier was minted,
    /// given the epoch offset the generator was configured with.
    pub fn unix_timestamp(&self, epoch_offset_ms: u64) -> (r: u64)
        ensures
            r == (spec_timestamp(self.value()) + epoch_offset_ms) as int / 1000,
    {
        let ts = self.timestamp();
        let total: u128 = ts as u128 + epoch_offset_ms as u128;
        let secs = total / 1000;
        proof {
            assert(total / 1000 <= (0x3FF_FFFF_FFFFu128 + 0xFFFF_FFFF_FFFF_FFFFu128) / 1000)
                by (nonlinear_arith)
                requires
                    total <= 0x3FF_FFFF_FFFFu128 + 0xFFFF_FFFF_FFFF_FFFFu128,
            ;
        }
        secs as u64
    }

    pub fn worker_id(&self) -> (r: u8)
        ensures
            r == spec_worker_id(self.value()),
    {
        proof {
            lemma_extract_bounds(self.0);
        }
        ((self.0 >> 12) & 0x1F) as u8
    }

    pub fn node_id(&self) -> (r: u8)
        ensures
            r == spec_node_id(self.value()),
    {
        proof {
            lemma_extract_bounds(self.0);
        }
        ((self.0 >> 17) & 0x1F) as u8
    }

    /// Parse the base62 text form.  Malformed text, and text whose value
    /// exceeds 64 bits, is a parse error; the canonical text form of any
    /// identifier parses back to it.
    pub fn from_str(v: &str) -> (r: Result<Self, Error>)
        ensures
            r matches Ok(id) ==> base62_decoded(v@) == Some(id.value()),
            r is Err <==> base62_decoded(v@) is None,
            r is Err ==> r->Err_0 == Error::IdentifierParse,
    {
        match base62_decode(v) {
            Ok(w) => Ok(Snowflake(w)),
            Err(_) => Err(Error::IdentifierParse),
        }
    }

    /// The human-facing text form: base62 digits of the integer.  Never
    /// lexicographically sortable, never a storage key.
    pub fn display(&self) -> (r: String)
        ensures
            r@ == base62_of(self.value()),
            r@.len() > 0,
            base62_decoded(r@) == Some(self.value()),
    {
        base62_encode(self.0)
    }
}

/// What `base62::encode` returns for a value: its standard-alphabet
/// base62 digits, a pure function of the value alone.
pub uninterp spec fn base62_of(v: u64) -> Seq<char>;

/// What the identifier parser makes of a text: the value `base62::decode`
/// yields, or `None` where decoding fails or the decoded value does not
/// fit 64 bits.  A pure function of the text alone.
pub uninterp spec fn base62_decoded(s: Seq<char>) -> Option<u64>;

/// Relies on `base62::encode`: the base62 digits of `v` in the standard
/// alphabet, a deterministic function of `v`, at least one digit long;
/// `base62::decode` inverts it, so decoding the returned digits yields
/// `v` again.
#[verifier::external_body]
fn base62_encode(v: u64) -> (r: String)
    ensures
        r@ == base62_of(v),
        r@.len() > 0,
        base62_decoded(r@) == Some(v),
{
    base62::encode(v)
}

/// Relies on `base62::decode`: a deterministic function of the text that
/// rejects empty or out-of-alphabet input with an error.  A decoded
/// value beyond 64 bits is no identifier and is rejected too.
#[verifier::external_body]
fn base62_decode(s: &str) -> (r: Result<u64, Error>)
    ensures
        r matches Ok(w) ==> base62_decoded(s@) == Some(w),
        r is Err ==> base62_decoded(s@) is None && r->Err_0 == Error::IdentifierParse,
{
    match base62::decode(s) {
        Ok(x) => match u64::try_from(x) {
            Ok(v) => Ok(v),
            Err(_) => Err(Error::IdentifierParse),
        },
        Err(_) => Err(Error::IdentifierParse),
    }
}

/// Per-context identifier generator.  Each execution context owns one;
/// the worker id distinguishes identifiers minted by concurrent contexts.
#[derive(Debug)]
pub struct Generator {
    worker_id: u8,
    sequence: u16,
    timestamp: u64,
    epoch_offset_ms: u64,
}

impl Generator {
    /// The generator's state stays inside the packed fields' ranges.
    pub closed spec fn wf(&self) -> bool {
        &&& self.worker_id < 32
        &&& self.sequence < 4096
        &&& self.timestamp <= MAX_TIMESTAMP
    }

    pub closed spec fn worker(&self) -> u8 {
        self.worker_id
    }

    pub closed spec fn seq(&self) -> u16 {
        self.sequence
    }

    pub closed spec fn ts(&self) -> u64 {
        self.timestamp
    }

    pub closed spec fn offset(&self) -> u64 {
        self.epoch_offset_ms
    }

    /// A fresh generator bound to a worker slot; slots come from an
    /// [`IdentifierAuthority`].
    pub fn new(worker_id: u8, epoch_offset_ms: u64) -> (r: Generator)
        requires
            worker_id < 32,
        ensures
            r.wf(),
            r.worker() == worker_id,
            r.seq() == 0,
            r.ts() == 0,
            r.offset() == epoch_offset_ms,
    {
        Generator { worker_id, sequence: 0, timestamp: 0, epoch_offset_ms }
    }

    /// Mint the next identifier.  On success either the held timestamp
    /// is unchanged and the sequence advances by exactly one, or the
    /// timestamp grew and the sequence restarts at zero; so the
    /// (timestamp, sequence) pair strictly increases and identifiers
    /// from one generator strictly increase.  On failure the state is
    /// untouched.
    /// A clock reading past the year 2164 is held at `MAX_TIMESTAMP`, and
    /// a reading that stepped backwards is held at the last timestamp:
    /// the timestamp component never decreases.
    pub fn next_id(&mut self, node_id: u8) -> (r: Result<Snowflake, Error>)
        requires
            node_id < 32,
            old(self).wf(),
        ensures
            final(self).wf(),
            final(self).worker() == old(self).worker(),
            final(self).offset() == old(self).offset(),
            r is Err ==> *final(self) == *old(self) && (r->Err_0 == Error::ClockRegression),
            r matches Ok(id) ==> {
                &&& id.value() == pack(final(self).ts(), node_id, final(self).worker(), final(self).seq())
                &&& ((final(self).ts() == old(self).ts() && final(self).seq() == old(self).seq()
                    + 1) || (final(self).ts() > old(self).ts() && final(self).seq() == 0))
                &&& (final(self).ts() > old(self).ts() || (final(self).ts() == old(self).ts()
                    && final(self).seq() > old(self).seq()))
            },
    {
        let now_ts = match epoch_millis(self.epoch_offset_ms) {
            Ok(t) => {
                if t > MAX_TIMESTAMP {
                    MAX_TIMESTAMP
                } else {
                    t
                }
            },
            Err(e) => {
                return Err(e);
            },
        };
        let new_ts: u64;
        let new_seq: u16;
        if now_ts <= self.timestamp {
            // Same millisecond, or a clock that stepped back: advance the
            // sequence under the held timestamp.
            if self.sequence < 4095 {
                new_ts = self.timestamp;
                new_seq = self.sequence + 1;
            } else {
                // 4096 identifiers already issued this millisecond: wait
                // for the clock to pass the held timestamp.
                match self.wait_for_next_milli() {
                    Ok(t) => {
                        new_ts = t;
                        new_seq = 0;
                    },
                    Err(e) => {
                        return Err(e);
                    },
                }
            }
        } else {
            new_ts = now_ts;
            new_seq = 0;
        }
        self.timestamp = new_ts;
        self.sequence = new_seq;
        let id = (new_ts << 22) | ((node_id as u64) << 17) | ((self.worker_id as u64) << 12) | (
        new_seq as u64);
        Ok(Snowflake(id))
    }

    /// Re-read the clock until it passes the held timestamp, at most
    /// `MAX_SPIN` readings; a clock frozen that long reads as stuck.
    fn wait_for_next_milli(&self) -> (r: Result<u64, Error>)
        requires
            self.wf(),
        ensures
            r matches Ok(t) ==> self.ts() < t <= MAX_TIMESTAMP,
            r is Err ==> r->Err_0 == Error::ClockRegression,
    {
        let mut spins: u64 = 0;
        while spins < MAX_SPIN
            invariant
                self.wf(),
            decreases MAX_SPIN - spins,
        {
            match epoch_millis(self.epoch_offset_ms) {
                Ok(t) => {
                    if t > self.timestamp {
                        if t > MAX_TIMESTAMP {
                            // The clock can no longer advance within the
                            // representable range; treat it as stuck.
                            return Err(Error::ClockRegression);
                        }
                        return Ok(t);
                    }
                },
                Err(e) => {
                    return Err(e);
                },
            }
            spins = spins + 1;
        }
        Err(Error::ClockRegression)
    }
}

/// Milliseconds since the given offset, from the system clock.
fn epoch_millis(offset_ms: u64) -> (r: Result<u64, Error>)
    ensures
        r is Err ==> r->Err_0 == Error::ClockRegression,
{
    match unix_now() {
        Ok(ms) => crate::epoch::millis_since_offset(ms, offset_ms),
        Err(_) => Err(Error::ClockRegression),
    }
}

/// Hands out generator handles bound to worker slots from a bounded arena
/// of 32, and fails hard on exhaustion instead of wrapping around.  The
/// epoch offset is threaded in once, at construction.
pub struct IdentifierAuthority {
    next_slot: u8,
    epoch_offset_ms: u64,
}

impl IdentifierAuthority {
    /// How many slots have been handed out.
    pub closed spec fn slots_used(&self) -> u8 {
        self.next_slot
    }

    pub closed spec fn offset(&self) -> u64 {
        self.epoch_offset_ms
    }

    pub closed spec fn wf(&self) -> bool {
        self.next_slot <= WORKER_SLOTS
    }

    pub fn new(epoch_offset_ms: u64) -> (r: IdentifierAuthority)
        ensures
            r.wf(),
            r.slots_used() == 0,
            r.offset() == epoch_offset_ms,
    {
        IdentifierAuthority { next_slot: 0, epoch_offset_ms }
    }

    /// The next generator, bound to the next free worker slot; a hard
    /// error once all 32 slots are taken.
    pub fn generator(&mut self) -> (r: Result<Generator, Error>)
        requires
            old(self).wf(),
        ensures
            final(self).wf(),
            final(self).offset() == old(self).offset(),
            old(self).slots_used() < WORKER_SLOTS ==> {
                &&& r matches Ok(g)
                &&& g.wf()
                &&& g.worker() == old(self).slots_used()
                &&& g.seq() == 0
                &&& g.ts() == 0
                &&& g.offset() == old(self).offset()
                &&& final(self).slots_used() == old(self).slots_used() + 1
            },
            old(self).slots_used() >= WORKER_SLOTS ==> r
                == Err::<Generator, Error>(Error::WorkerSlotsExhausted) && *final(self) == *old(
                self,
            ),
    {
        if self.next_slot >= WORKER_SLOTS {
            return Err(Error::WorkerSlotsExhausted);
        }
        let g = Generator::new(self.next_slot, self.epoch_offset_ms);
        self.next_slot = self.next_slot + 1;
        Ok(g)
    }
}

/// Mint one identifier from an explicitly owned generator.  Concurrency
/// is achieved by giving each execution context its own generator value,
/// never by sharing one behind ambient thread-local state.
pub fn snowflake(generator: &mut Generator, node_id: u8) -> (r: Result<Snowflake, Error>)
    requires
        node_id < 32,
        old(generator).wf(),
    ensures
        final(generator).wf(),
        final(generator).worker() == old(generator).worker(),
        r is Err ==> *final(generator) == *old(generator) && r->Err_0 == Error::ClockRegression,
        r matches Ok(id) ==> id.value() == pack(
            final(generator).ts(),
            node_id,
            final(generator).worker(),
            final(generator).seq(),
        ),
        r matches Ok(id) ==> (final(generator).ts() > old(generator).ts() || (final(generator).ts()
            == old(generator).ts() && final(generator).seq() > old(generator).seq())),
{
    generator.next_id(node_id)
}

/// A write-once cell for the process's node id.
pub struct NodeCell {
    id: Option<u8>,
}

impl NodeCell {
    pub closed spec fn is_set(&self) -> bool {
        self.id is Some
    }

    pub closed spec fn get(&self) -> u8 {
        self.id->0
    }

    /// A set cell always holds an id that fits the 5-bit field.
    pub closed spec fn wf(&self) -> bool {
        self.id is Some ==> self.id->0 < 32
    }

    pub fn new() -> (r: NodeCell)
        ensures
            !r.is_set(),
            r.wf(),
    {
        NodeCell { id: None }
    }
}

/// The configured node id.
pub fn node_id(cell: &NodeCell) -> (r: u8)
    requires
        cell.is_set(),
        cell.wf(),
    ensures
        r == cell.get(),
        r < 32,
{
    cell.id.unwrap()
}

/// Configure the node id, once; it must fit the 5-bit field.
pub fn set_node_id(cell: &mut NodeCell, id: u8)
    requires
        id < 32,
        !old(cell).is_set(),
    ensures
        final(cell).is_set(),
        final(cell).wf(),
        final(cell).get() == id,
{
    cell.id = Some(id);
}

/// Two immediately consecutive successful calls to one generator instance,
/// with one node id, yield strictly increasing identifiers.
pub proof fn lemma_consecutive_ids_increase(
    g0: Generator,
    g1: Generator,
    g2: Generator,
    id1: Snowflake,
    id2: Snowflake,
    node_id: u8,
)
    requires
        node_id < 32,
        g1.wf(),
        g2.wf(),
        g1.worker() == g0.worker(),
        g2.worker() == g1.worker(),
        id1.value() == pack(g1.ts(), node_id, g1.worker(), g1.seq()),
        id2.value() == pack(g2.ts(), node_id, g2.worker(), g2.seq()),
        g2.ts() > g1.ts() || (g2.ts() == g1.ts() && g2.seq() > g1.seq()),
    ensures
        id1.value() < id2.value(),
{
    lemma_pack_increases(g1.ts(), g1.seq(), g2.ts(), g2.seq(), node_id, g1.worker());
}

/// The text round trip: parsing what `display` produced yields the
/// identifier back, for every value.  `text` stands for the output of
/// `display` on the identifier `v`, `parsed` for what `from_str` then
/// returned; the premises are exactly those two functions' contracts.
pub proof fn lemma_parse_display_round_trip(v: u64, text: Seq<char>, parsed: Result<
    Snowflake,
    Error,
>)
    requires
        base62_decoded(text) == Some(v),
        parsed matches Ok(id) ==> base62_decoded(text) == Some(id.value()),
        parsed is Err <==> base62_decoded(text) is None,
    ensures
        parsed matches Ok(id) && id.value() == v,
{
}

} // verus!
