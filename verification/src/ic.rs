//! Per-callsite inline caches: a flat list of `(shape, key) -> slot` entries,
//! scanned in order.
use vstd::prelude::*;

verus! {

/// Where a cached property lives for one `(shape, key)` pair.
#[derive(Copy, Clone, Debug, Default)]
pub struct IcEntry {
    /// Slot offset in the object (or in the prototype at `proto_depth`).
    pub offset: usize,
    /// True if the property is on the object itself, false if inherited.
    pub is_own: bool,
    /// How many prototype hops reach the property (0 = own).
    pub proto_depth: u8,
}

/// The key an entry is stored under.
#[derive(Copy, Clone, Debug, Default)]
pub struct IcKey {
    pub shape_id: u64,
    pub key_hash: u64,
}

/// A per-callsite inline cache: entries in insertion order.
#[derive(Clone, Debug)]
pub struct InlineCache {
    pub entries: Vec<(IcKey, IcEntry)>,
}

/// Aggregate inline-cache statistics across all callsites.
#[derive(Copy, Clone, Debug, Default, PartialEq, Eq, Structural)]
pub struct IcStats {
    pub lookups: u64,
    pub hits: u64,
    pub misses: u64,
}

/// A recorded opcode from a hot-loop trace.
#[derive(Clone, Debug)]
pub struct TraceOp {
    /// The opcode executed.
    pub opcode: u8,
    /// The operands of the instruction.
    pub operands: Vec<i64>,
    /// PC in the original program (used for bailout PC translation).
    pub original_pc: usize,
    /// Shape ID hit during a property load (0 if none).
    pub shape_id: u64,
    /// Number of times this opcode would dispatch in the interpreter.
    pub cost: u32,
}

/// A recorded trace of one hot-loop iteration: what the trace compiler
/// reads of it (the compiled code and its metadata are held by the caller).
#[derive(Clone, Debug)]
pub struct LoopTrace {
    pub target_pc: usize,
    pub ops: Vec<TraceOp>,
    /// Total iteration count when the trace was recorded.
    pub total_iterations: u64,
    /// Unique shape ids seen (for the monomorphism check).
    pub shape_ids: Vec<u64>,
    /// The bytecode index after the loop.
    pub exit_pc: usize,
    /// Maps a trace instruction index to the original program pc.
    pub trace_to_original_pc: Vec<usize>,
}

impl LoopTrace {
    /// At most one shape was seen while recording.
    pub fn is_monomorphic(&self) -> (r: bool)
        ensures
            r == (self.shape_ids.len() <= 1),
    {
        self.shape_ids.len() <= 1
    }

    /// The interpreter's cost of one iteration: about ten cycles per
    /// opcode for dispatch and execution.
    pub fn estimated_interpreter_cost(&self) -> (r: u32)
        requires
            self.ops.len() * 10 <= u32::MAX,
        ensures
            r == self.ops.len() * 10,
    {
        self.ops.len() as u32 * 10
    }

    /// Native code's cost of one iteration: about two cycles per opcode.
    pub fn estimated_native_cost(&self) -> (r: u32)
        requires
            self.ops.len() * 2 <= u32::MAX,
        ensures
            r == self.ops.len() * 2,
    {
        self.ops.len() as u32 * 2
    }
}

/// The stored pair `e` is kept under the key `(shape_id, key_hash)`.
pub open spec fn key_matches(e: (IcKey, IcEntry), shape_id: u64, key_hash: u64) -> bool {
    e.0.shape_id == shape_id && e.0.key_hash == key_hash
}

/// Position `i` holds the first pair stored under `(shape_id, key_hash)`.
pub open spec fn is_first_match(s: Seq<(IcKey, IcEntry)>, shape_id: u64, key_hash: u64, i: int) -> bool {
    0 <= i < s.len() && key_matches(s[i], shape_id, key_hash) && forall|j: int|
        0 <= j < i ==> !key_matches(#[trigger] s[j], shape_id, key_hash)
}

/// Some pair of `s` is stored under `(shape_id, key_hash)`.
pub open spec fn has_key(s: Seq<(IcKey, IcEntry)>, shape_id: u64, key_hash: u64) -> bool {
    exists|i: int| 0 <= i < s.len() && key_matches(#[trigger] s[i], shape_id, key_hash)
}

/// The position of the first pair stored under `(shape_id, key_hash)`.
pub open spec fn first_match(s: Seq<(IcKey, IcEntry)>, shape_id: u64, key_hash: u64) -> int {
    choose|i: int| is_first_match(s, shape_id, key_hash, i)
}

/// What a lookup of `(shape_id, key_hash)` in the entry list `s` finds: the
/// entry of the first pair stored under that key.
pub open spec fn ic_lookup(s: Seq<(IcKey, IcEntry)>, shape_id: u64, key_hash: u64) -> Option<IcEntry> {
    if has_key(s, shape_id, key_hash) {
        Some(s[first_match(s, shape_id, key_hash)].1)
    } else {
        None
    }
}

/// The entry list after storing `entry` under `(shape_id, key_hash)`: the
/// first pair under that key gets the new entry, or a new pair is appended.
pub open spec fn ic_insert(s: Seq<(IcKey, IcEntry)>, shape_id: u64, key_hash: u64, entry: IcEntry) -> Seq<(IcKey, IcEntry)> {
    if has_key(s, shape_id, key_hash) {
        let i = first_match(s, shape_id, key_hash);
        s.update(i, (s[i].0, entry))
    } else {
        s.push((IcKey { shape_id, key_hash }, entry))
    }
}

/// No two pairs of `s` are stored under the same key.
pub open spec fn keys_unique(s: Seq<(IcKey, IcEntry)>) -> bool {
    forall|i: int, j: int|
        0 <= i < j < s.len() ==> !key_matches(#[trigger] s[i], s[j].0.shape_id, #[trigger] s[j].0.key_hash)
}

/// When some pair is stored under the key, the first one is well defined.
pub proof fn lemma_first_match_exists(s: Seq<(IcKey, IcEntry)>, shape_id: u64, key_hash: u64)
    requires
        has_key(s, shape_id, key_hash),
    ensures
        is_first_match(s, shape_id, key_hash, first_match(s, shape_id, key_hash)),
    decreases s.len(),
{
    let i = choose|i: int| 0 <= i < s.len() && key_matches(#[trigger] s[i], shape_id, key_hash);
    if exists|j: int| 0 <= j < i && key_matches(#[trigger] s[j], shape_id, key_hash) {
        let s2 = s.take(i);
        assert(has_key(s2, shape_id, key_hash)) by {
            let j = choose|j: int| 0 <= j < i && key_matches(#[trigger] s[j], shape_id, key_hash);
            assert(s2[j] == s[j]);
        }
        lemma_first_match_exists(s2, shape_id, key_hash);
        let f = first_match(s2, shape_id, key_hash);
        assert forall|j: int| 0 <= j < f implies !key_matches(#[trigger] s[j], shape_id, key_hash) by {
            assert(s2[j] == s[j]);
        }
        assert(s2[f] == s[f]);
        assert(is_first_match(s, shape_id, key_hash, f));
    } else {
        assert(is_first_match(s, shape_id, key_hash, i));
    }
}

proof fn lemma_first_match_unique(s: Seq<(IcKey, IcEntry)>, shape_id: u64, key_hash: u64, i: int)
    requires
        is_first_match(s, shape_id, key_hash, i),
    ensures
        has_key(s, shape_id, key_hash),
        first_match(s, shape_id, key_hash) == i,
{
    assert(key_matches(s[i], shape_id, key_hash));
    lemma_first_match_exists(s, shape_id, key_hash);
    let f = first_match(s, shape_id, key_hash);
    if f < i {
        assert(!key_matches(s[f], shape_id, key_hash));
    }
    if i < f {
        assert(!key_matches(s[i], shape_id, key_hash));
    }
}

/// After storing `entry` under a key, a lookup of that key finds `entry`.
pub proof fn law_lookup_after_insert(s: Seq<(IcKey, IcEntry)>, shape_id: u64, key_hash: u64, entry: IcEntry)
    ensures
        ic_lookup(ic_insert(s, shape_id, key_hash, entry), shape_id, key_hash) == Some(entry),
{
    let t = ic_insert(s, shape_id, key_hash, entry);
    if has_key(s, shape_id, key_hash) {
        lemma_first_match_exists(s, shape_id, key_hash);
        let i = first_match(s, shape_id, key_hash);
        assert(is_first_match(t, shape_id, key_hash, i));
        lemma_first_match_unique(t, shape_id, key_hash, i);
    } else {
        let n = s.len() as int;
        assert(is_first_match(t, shape_id, key_hash, n));
        lemma_first_match_unique(t, shape_id, key_hash, n);
    }
}

/// Storing under one key leaves what a lookup of any other key finds unchanged.
pub proof fn law_insert_other_key(
    s: Seq<(IcKey, IcEntry)>,
    shape_id: u64,
    key_hash: u64,
    entry: IcEntry,
    other_shape: u64,
    other_hash: u64,
)
    requires
        other_shape != shape_id || other_hash != key_hash,
    ensures
        ic_lookup(ic_insert(s, shape_id, key_hash, entry), other_shape, other_hash) == ic_lookup(
            s,
            other_shape,
            other_hash,
        ),
{
    let t = ic_insert(s, shape_id, key_hash, entry);
    assert forall|j: int| 0 <= j < t.len() && j < s.len() implies #[trigger] key_matches(
        t[j],
        other_shape,
        other_hash,
    ) == key_matches(s[j], other_shape, other_hash) by {
        if has_key(s, shape_id, key_hash) {
            lemma_first_match_exists(s, shape_id, key_hash);
        }
    }
    if has_key(s, shape_id, key_hash) {
        lemma_first_match_exists(s, shape_id, key_hash);
    }
    if has_key(s, other_shape, other_hash) {
        lemma_first_match_exists(s, other_shape, other_hash);
        let f = first_match(s, other_shape, other_hash);
        assert forall|j: int| 0 <= j < f implies !key_matches(#[trigger] t[j], other_shape, other_hash) by {
            assert(key_matches(t[j], other_shape, other_hash) == key_matches(s[j], other_shape, other_hash));
        }
        assert(key_matches(t[f], other_shape, other_hash) == key_matches(s[f], other_shape, other_hash));
        assert(is_first_match(t, other_shape, other_hash, f));
        lemma_first_match_unique(t, other_shape, other_hash, f);
        if has_key(s, shape_id, key_hash) {
            let i = first_match(s, shape_id, key_hash);
            if i == f {
                assert(key_matches(s[i], shape_id, key_hash));
            }
        }
    } else {
        if has_key(t, other_shape, other_hash) {
            let j = choose|j: int| 0 <= j < t.len() && key_matches(#[trigger] t[j], other_shape, other_hash);
            if j < s.len() {
                assert(key_matches(s[j], other_shape, other_hash));
            }
        }
    }
}

/// Storing an entry keeps the keys of a cache with unique keys unique.
pub proof fn law_insert_keeps_keys_unique(s: Seq<(IcKey, IcEntry)>, shape_id: u64, key_hash: u64, entry: IcEntry)
    requires
        keys_unique(s),
    ensures
        keys_unique(ic_insert(s, shape_id, key_hash, entry)),
{
    let t = ic_insert(s, shape_id, key_hash, entry);
    if has_key(s, shape_id, key_hash) {
        lemma_first_match_exists(s, shape_id, key_hash);
        assert forall|i: int, j: int| 0 <= i < j < t.len() implies !key_matches(
            #[trigger] t[i],
            t[j].0.shape_id,
            #[trigger] t[j].0.key_hash,
        ) by {
            assert(t[i].0 == s[i].0);
            assert(t[j].0 == s[j].0);
            assert(!key_matches(s[i], s[j].0.shape_id, s[j].0.key_hash));
        }
    } else {
        assert forall|i: int, j: int| 0 <= i < j < t.len() implies !key_matches(
            #[trigger] t[i],
            t[j].0.shape_id,
            #[trigger] t[j].0.key_hash,
        ) by {
            if j < s.len() {
                assert(!key_matches(s[i], s[j].0.shape_id, s[j].0.key_hash));
            } else {
                assert(!key_matches(s[i], shape_id, key_hash));
            }
        }
    }
}

impl Default for InlineCache {
    /// An empty cache.
    fn default() -> (r: Self)
        ensures
            r.entries@.len() == 0,
    {
        InlineCache::new()
    }
}

impl InlineCache {
    /// An empty cache.
    pub fn new() -> (r: Self)
        ensures
            r.entries@ == Seq::<(IcKey, IcEntry)>::empty(),
    {
        InlineCache { entries: Vec::new() }
    }

    /// Look up the cached entry for `(shape_id, key_hash)`.
    pub fn get(&self, shape_id: u64, key_hash: u64) -> (r: Option<IcEntry>)
        ensures
            r == ic_lookup(self.entries@, shape_id, key_hash),
    {
        self.get_scalar(shape_id, key_hash)
    }

    /// Index of the first pair stored under the key, by a linear scan.
    fn position(&self, shape_id: u64, key_hash: u64) -> (r: Option<usize>)
        ensures
            match r {
                Some(i) => is_first_match(self.entries@, shape_id, key_hash, i as int),
                None => !has_key(self.entries@, shape_id, key_hash),
            },
    {
        let n = self.entries.len();
        let mut i: usize = 0;
        while i < n
            invariant
                n == self.entries@.len(),
                i <= n,
                forall|j: int| 0 <= j < i ==> !key_matches(#[trigger] self.entries@[j], shape_id, key_hash),
            decreases n - i,
        {
            let k = self.entries[i].0;
            if k.shape_id == shape_id && k.key_hash == key_hash {
                return Some(i);
            }
            i = i + 1;
        }
        None
    }

    /// Linear scan for the first pair stored under the key.
    fn get_scalar(&self, shape_id: u64, key_hash: u64) -> (r: Option<IcEntry>)
        ensures
            r == ic_lookup(self.entries@, shape_id, key_hash),
    {
        match self.position(shape_id, key_hash) {
            Some(i) => {
                proof {
                    lemma_first_match_unique(self.entries@, shape_id, key_hash, i as int);
                }
                Some(self.entries[i].1)
            },
            None => None,
        }
    }

    /// Store `entry` under `(shape_id, key_hash)`: the pair already stored under
    /// that key is updated in place, otherwise a new pair is appended.
    pub fn insert(&mut self, shape_id: u64, key_hash: u64, entry: IcEntry)
        ensures
            final(self).entries@ == ic_insert(old(self).entries@, shape_id, key_hash, entry),
    {
        match self.position(shape_id, key_hash) {
            Some(i) => {
                proof {
                    lemma_first_match_unique(self.entries@, shape_id, key_hash, i as int);
                }
                let k = self.entries[i].0;
                self.entries.set(i, (k, entry));
            },
            None => {
                self.entries.push((IcKey { shape_id, key_hash }, entry));
            },
        }
    }
}

} // verus!
