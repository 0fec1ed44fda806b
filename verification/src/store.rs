//! The log-structured storage engine: numbered in-memory log segments, the
//! key index, the write path with its wasted-bytes counter and in-line
//! compaction, and replay of existing segments on open.
//!
//! The engine holds every segment's text; the unverified shell around the
//! library mirrors appends, segment creation and deletion onto `<n>.log`
//! files, using the effect each write reports.

use vstd::prelude::*;
use crate::errors::KvError;
use crate::index::{
    CommandIndex,
    skipmap_view,
    index_new,
    index_get,
    index_insert,
    index_remove,
    index_entries,
};
use crate::record::{
    Rec,
    Command,
    rec_text,
    parse_rec,
    encode_command,
    parse_command,
    lemma_parse_rec_bounds,
    lemma_parse_rec_local,
    lemma_parse_rec_of_chunk,
    lemma_parse_rec_text_self,
};
use vstd::pervasive::unreached;
use vstd::std_specs::vec::spec_vec_len;
use crate::text::chars_to_string;
use crate::COMPACTION_THRESHOLD;
use crossbeam_skiplist::SkipMap;

verus! {

/// One log segment: its generation and its full text.
pub struct Segment {
    pub version: u64,
    pub data: Vec<char>,
}

/// The state replaying a log builds: each key's record location, each key's
/// value, and the count of dead characters (superseded records, plus every
/// `Remove` record, which compaction will also discard).
pub struct ReplayState {
    pub idx: Map<Seq<char>, CommandIndex>,
    pub kv: Map<Seq<char>, Seq<char>>,
    pub dead: nat,
}

/// The state before any record.
pub open spec fn empty_state() -> ReplayState {
    ReplayState { idx: Map::empty(), kv: Map::empty(), dead: 0 }
}

/// The length of the record `key` currently points at, zero when absent.
pub open spec fn old_len(st: ReplayState, key: Seq<char>) -> nat {
    if st.idx.dom().contains(key) {
        st.idx[key].len as nat
    } else {
        0
    }
}

/// How one parsed record at `[start, end)` of segment `ver` advances replay.
pub open spec fn apply_rec(st: ReplayState, r: Rec, ver: u64, start: int, end: int) -> ReplayState {
    match r {
        Rec::Put { key, value } => ReplayState {
            idx: st.idx.insert(
                key,
                CommandIndex { version: ver, start: start as usize, len: (end - start) as usize },
            ),
            kv: st.kv.insert(key, value),
            dead: st.dead + old_len(st, key),
        },
        Rec::Remove { key } => ReplayState {
            idx: st.idx.remove(key),
            kv: st.kv.remove(key),
            dead: st.dead + old_len(st, key) + (end - start) as nat,
        },
    }
}

/// What replaying one segment's text from `pos` onward yields, or `None`
/// where a record is malformed or truncated.
pub open spec fn replay_seg(t: Seq<char>, ver: u64, pos: int, st: ReplayState) -> Option<
    ReplayState,
>
    decreases t.len() - pos,
{
    if pos == t.len() {
        Some(st)
    } else if pos < 0 || pos > t.len() {
        None
    } else {
        match parse_rec(t, pos) {
            None => None,
            Some((r, end)) => {
                if end <= pos || end > t.len() {
                    None
                } else {
                    replay_seg(t, ver, end, apply_rec(st, r, ver, pos, end))
                }
            },
        }
    }
}

/// What replaying the segments in order yields.
pub open spec fn replay_segs(segs: Seq<(u64, Seq<char>)>, st: ReplayState) -> Option<ReplayState>
    decreases segs.len(),
{
    if segs.len() == 0 {
        Some(st)
    } else {
        match replay_seg(segs[0].1, segs[0].0, 0, st) {
            None => None,
            Some(st2) => replay_segs(segs.drop_first(), st2),
        }
    }
}

/// What replaying all segments from an empty index yields.
pub open spec fn replay_all(segs: Seq<(u64, Seq<char>)>) -> Option<ReplayState> {
    replay_segs(segs, empty_state())
}

/// The total character count of the segments.
pub open spec fn total_len(segs: Seq<(u64, Seq<char>)>) -> int
    decreases segs.len(),
{
    if segs.len() == 0 {
        0
    } else {
        segs[0].1.len() + total_len(segs.drop_first())
    }
}

/// `ci` points into some segment at a whole `Set` record carrying exactly
/// `key` and `value`.
pub open spec fn entry_valid(
    segs: Seq<(u64, Seq<char>)>,
    key: Seq<char>,
    ci: CommandIndex,
    value: Seq<char>,
) -> bool {
    exists|j: int|
        0 <= j < segs.len() && (#[trigger] segs[j]).0 == ci.version && ci.start + ci.len
            <= segs[j].1.len() && parse_rec(segs[j].1, ci.start as int) == Some(
            (Rec::Put { key, value }, ci.start + ci.len),
        )
}

/// Every indexed key has a value and a valid location.
pub open spec fn state_valid(segs: Seq<(u64, Seq<char>)>, st: ReplayState) -> bool {
    &&& st.kv.dom() == st.idx.dom()
    &&& forall|k: Seq<char>|
        #[trigger] st.idx.dom().contains(k) ==> entry_valid(segs, k, st.idx[k], st.kv[k])
}

/// Replaying a segment extended by one whole record replays the old text and
/// then applies that record at the old end.
#[verifier::rlimit(60)]
pub proof fn lemma_replay_seg_append(
    t: Seq<char>,
    ver: u64,
    pos: int,
    st: ReplayState,
    chunk: Seq<char>,
    r: Rec,
)
    requires
        replay_seg(t, ver, pos, st) is Some,
        0 <= pos <= t.len(),
        parse_rec(chunk, 0) == Some((r, chunk.len() as int)),
    ensures
        replay_seg(t + chunk, ver, pos, st) == Some(
            apply_rec(
                replay_seg(t, ver, pos, st).unwrap(),
                r,
                ver,
                t.len() as int,
                t.len() as int + chunk.len() as int,
            ),
        ),
    decreases t.len() - pos,
{
    lemma_parse_rec_bounds(chunk, 0);
    if pos == t.len() {
        assert((t + chunk).subrange(pos, pos + chunk.len() as int) =~= chunk);
        lemma_parse_rec_of_chunk(chunk, r, t + chunk, pos);
        assert(replay_seg(t + chunk, ver, pos + chunk.len() as int, apply_rec(st, r, ver, pos, pos + chunk.len())) == Some(
            apply_rec(st, r, ver, pos, pos + chunk.len()),
        ));
    } else {
        let (r1, e1) = parse_rec(t, pos).unwrap();
        lemma_parse_rec_bounds(t, pos);
        assert((t + chunk).subrange(pos, e1) =~= t.subrange(pos, e1));
        lemma_parse_rec_local(t, pos, t + chunk, pos);
        lemma_replay_seg_append(t, ver, e1, apply_rec(st, r1, ver, pos, e1), chunk, r);
    }
}

/// Replaying up to a pushed segment replays the front and then that segment.
pub proof fn lemma_replay_segs_snoc(segs: Seq<(u64, Seq<char>)>, x: (u64, Seq<char>), st: ReplayState)
    ensures
        replay_segs(segs.push(x), st) == (match replay_segs(segs, st) {
            None => None,
            Some(st2) => replay_seg(x.1, x.0, 0, st2),
        }),
    decreases segs.len(),
{
    if segs.len() == 0 {
        assert(segs.push(x)[0] == x);
        assert(segs.push(x).drop_first() =~= Seq::<(u64, Seq<char>)>::empty());
        match replay_seg(x.1, x.0, 0, st) {
            None => {
            },
            Some(st2) => {
                assert(replay_segs(Seq::<(u64, Seq<char>)>::empty(), st2) == Some(st2));
                assert(replay_segs(segs.push(x), st) == Some(st2));
            },
        }
    } else {
        assert(segs.push(x)[0] == segs[0]);
        assert(segs.push(x).drop_first() =~= segs.drop_first().push(x));
        match replay_seg(segs[0].1, segs[0].0, 0, st) {
            None => {
            },
            Some(st2) => {
                lemma_replay_segs_snoc(segs.drop_first(), x, st2);
            },
        }
    }
}

/// The total length of segments distributes over a push.
pub proof fn lemma_total_len_snoc(segs: Seq<(u64, Seq<char>)>, x: (u64, Seq<char>))
    ensures
        total_len(segs.push(x)) == total_len(segs) + x.1.len(),
    decreases segs.len(),
{
    if segs.len() == 0 {
        assert(segs.push(x)[0] == x);
        assert(segs.push(x).drop_first() =~= Seq::<(u64, Seq<char>)>::empty());
        assert(total_len(Seq::<(u64, Seq<char>)>::empty()) == 0);
        assert(total_len(segs) == 0);
    } else {
        assert(segs.push(x)[0] == segs[0]);
        assert(segs.push(x).drop_first() =~= segs.drop_first().push(x));
        lemma_total_len_snoc(segs.drop_first(), x);
    }
}

/// Replay preserves validity of every entry, relative to any segment list
/// that carries the replayed text under the replayed generation.
pub proof fn lemma_replay_seg_valid(
    segs: Seq<(u64, Seq<char>)>,
    t: Seq<char>,
    ver: u64,
    pos: int,
    st: ReplayState,
)
    requires
        replay_seg(t, ver, pos, st) is Some,
        0 <= pos <= t.len(),
        t.len() <= usize::MAX,
        state_valid(segs, st),
        exists|j: int| 0 <= j < segs.len() && (#[trigger] segs[j]) == (ver, t),
    ensures
        state_valid(segs, replay_seg(t, ver, pos, st).unwrap()),
    decreases t.len() - pos,
{
    if pos == t.len() {
    } else {
        let (r, end) = parse_rec(t, pos).unwrap();
        lemma_parse_rec_bounds(t, pos);
        let st2 = apply_rec(st, r, ver, pos, end);
        assert(state_valid(segs, st2)) by {
            let j = choose|j: int| 0 <= j < segs.len() && (#[trigger] segs[j]) == (ver, t);
            match r {
                Rec::Put { key, value } => {
                    assert(st2.kv.dom() =~= st2.idx.dom());
                    assert forall|k: Seq<char>| #[trigger] st2.idx.dom().contains(k) implies
                        entry_valid(segs, k, st2.idx[k], st2.kv[k]) by {
                        if k == key {
                            assert(segs[j].0 == ver && segs[j].1 == t);
                            let ci = st2.idx[key];
                            assert(ci.start as int == pos && ci.len as int == end - pos);
                            assert(segs[j].0 == ci.version && ci.start + ci.len <= segs[j].1.len()
                                && parse_rec(segs[j].1, ci.start as int) == Some(
                                (Rec::Put { key, value }, ci.start + ci.len),
                            ));
                            assert(entry_valid(segs, key, st2.idx[key], value));
                        } else {
                            assert(st.idx.dom().contains(k));
                        }
                    }
                },
                Rec::Remove { key } => {
                    assert(st2.kv.dom() =~= st2.idx.dom());
                    assert forall|k: Seq<char>| #[trigger] st2.idx.dom().contains(k) implies
                        entry_valid(segs, k, st2.idx[k], st2.kv[k]) by {
                        assert(st.idx.dom().contains(k));
                    }
                },
            }
        }
        lemma_replay_seg_valid(segs, t, ver, end, st2);
    }
}

/// Entry validity carries over to a segment list whose members extend the
/// old ones: same generations, each old text a prefix of the new one.
pub proof fn lemma_state_valid_grow(
    segs: Seq<(u64, Seq<char>)>,
    segs2: Seq<(u64, Seq<char>)>,
    st: ReplayState,
)
    requires
        state_valid(segs, st),
        segs.len() <= segs2.len(),
        forall|j: int|
            0 <= j < segs.len() ==> (#[trigger] segs2[j]).0 == segs[j].0 && segs[j].1.len()
                <= segs2[j].1.len() && segs2[j].1.subrange(0, segs[j].1.len() as int) == segs[j].1,
    ensures
        state_valid(segs2, st),
{
    assert forall|k: Seq<char>| #[trigger] st.idx.dom().contains(k) implies entry_valid(
        segs2,
        k,
        st.idx[k],
        st.kv[k],
    ) by {
        let ci = st.idx[k];
        let v = st.kv[k];
        let j = choose|j: int|
            0 <= j < segs.len() && (#[trigger] segs[j]).0 == ci.version && ci.start + ci.len
                <= segs[j].1.len() && parse_rec(segs[j].1, ci.start as int) == Some(
                (Rec::Put { key: k, value: v }, ci.start + ci.len),
            );
        let t1 = segs[j].1;
        let t2 = segs2[j].1;
        assert(t2.subrange(0, t1.len() as int) == t1);
        assert(t2.subrange(ci.start as int, ci.start + ci.len) =~= t1.subrange(
            ci.start as int,
            ci.start + ci.len,
        )) by {
            assert forall|i: int| 0 <= i < ci.len implies #[trigger] t2.subrange(
                ci.start as int,
                ci.start + ci.len,
            )[i] == t1.subrange(ci.start as int, ci.start + ci.len)[i] by {
                assert(t2.subrange(0, t1.len() as int)[ci.start + i] == t2[ci.start + i]);
                assert(t1[ci.start + i] == t2[ci.start + i]);
                assert(t2.subrange(ci.start as int, ci.start + ci.len)[i] == t2[ci.start + i]);
                assert(t1.subrange(ci.start as int, ci.start + ci.len)[i] == t1[ci.start + i]);
            }
        }
        lemma_parse_rec_local(t1, ci.start as int, t2, ci.start as int);
        assert(segs2[j].0 == ci.version);
    }
}

/// The generation-and-text view of a vector of segments.
pub open spec fn segs_of(v: Seq<Segment>) -> Seq<(u64, Seq<char>)> {
    v.map(|i: int, s: Segment| (s.version, s.data@))
}

/// Replaying a list splits at any point: the front first, the rest from the
/// front's result.
pub proof fn lemma_replay_segs_split(segs: Seq<(u64, Seq<char>)>, k: int, st: ReplayState)
    requires
        0 <= k <= segs.len(),
    ensures
        replay_segs(segs, st) == (match replay_segs(segs.take(k), st) {
            None => None,
            Some(m) => replay_segs(segs.skip(k), m),
        }),
    decreases k,
{
    if k == 0 {
        assert(segs.take(0) =~= Seq::<(u64, Seq<char>)>::empty());
        assert(segs.skip(0) =~= segs);
        assert(replay_segs(Seq::<(u64, Seq<char>)>::empty(), st) == Some(st));
    } else {
        assert(segs.len() >= 1);
        assert(segs.take(k)[0] == segs[0]);
        assert(segs.take(k).len() == k >= 1);
        match replay_seg(segs[0].1, segs[0].0, 0, st) {
            None => {
            },
            Some(st2) => {
                lemma_replay_segs_split(segs.drop_first(), k - 1, st2);
                assert(segs.take(k).drop_first() =~= segs.drop_first().take(k - 1));
                assert(segs.skip(k) =~= segs.drop_first().skip(k - 1));
            },
        }
    }
}

/// Replaying any list of segments that all appear in `ctx` preserves entry
/// validity relative to `ctx`.
pub proof fn lemma_replay_segs_valid(
    ctx: Seq<(u64, Seq<char>)>,
    segs: Seq<(u64, Seq<char>)>,
    st: ReplayState,
)
    requires
        replay_segs(segs, st) is Some,
        state_valid(ctx, st),
        forall|i: int|
            0 <= i < segs.len() ==> (exists|j: int|
                0 <= j < ctx.len() && (#[trigger] ctx[j]) == segs[i]) && (#[trigger] segs[i]).1.len()
                <= usize::MAX,
    ensures
        state_valid(ctx, replay_segs(segs, st).unwrap()),
    decreases segs.len(),
{
    if segs.len() == 0 {
    } else {
        let st2 = replay_seg(segs[0].1, segs[0].0, 0, st).unwrap();
        assert(segs[0].1.len() <= usize::MAX);
        lemma_replay_seg_valid(ctx, segs[0].1, segs[0].0, 0, st);
        assert forall|i: int| 0 <= i < segs.drop_first().len() implies (exists|j: int|
            0 <= j < ctx.len() && (#[trigger] ctx[j]) == segs.drop_first()[i]) && (#[trigger] segs.drop_first()[i]).1.len() <= usize::MAX by {
            assert(segs.drop_first()[i] == segs[i + 1]);
        }
        lemma_replay_segs_valid(ctx, segs.drop_first(), st2);
    }
}

/// Whether the log still has room for one more record of this shape: only
/// the width of the size counter limits it.
pub open spec fn rec_text_room(store: KvStore, r: Rec) -> bool {
    total_len(store.segs()) + rec_text(r).len() <= u64::MAX
}

/// `a` clamped into a `u64`.
pub open spec fn sat64(a: int) -> u64 {
    if a <= u64::MAX {
        a as u64
    } else {
        u64::MAX
    }
}

/// Adding onto a clamped sum saturates to the clamp of the true sum.
pub proof fn lemma_sat64_add(d: int, b: int)
    requires
        0 <= d,
        0 <= b <= u64::MAX,
    ensures
        (if sat64(d) + b <= u64::MAX {
            (sat64(d) + b) as u64
        } else {
            u64::MAX
        }) == sat64(d + b),
{
}

/// The saturating sum, used for the wasted-bytes estimate.
fn sat_add(a: u64, b: u64) -> (r: u64)
    ensures
        r == if a + b <= u64::MAX {
            (a + b) as u64
        } else {
            u64::MAX
        },
{
    if a <= u64::MAX - b {
        a + b
    } else {
        u64::MAX
    }
}

/// What one write did to the log, for the shell to mirror onto disk: the
/// record text appended, the generation whose file received it, and whether
/// compaction replaced the segment files afterwards.
#[derive(Debug)]
pub struct WriteEffect {
    pub version: u64,
    pub text: String,
    pub compacted: bool,
}

/// The log-structured store: all log segments (the last one active), the key
/// index, the wasted-bytes estimate, and the safe point below which no
/// reader needs a segment.
pub struct KvStore {
    segments: Vec<Segment>,
    index: SkipMap<String, CommandIndex>,
    uncompacted: u64,
    safe_point: u64,
}

impl KvStore {
    /// The segments as generation-and-text pairs.
    pub closed spec fn segs(self) -> Seq<(u64, Seq<char>)> {
        segs_of(self.segments@)
    }

    /// What replaying this store's segments yields.
    pub closed spec fn replay(self) -> Option<ReplayState> {
        replay_all(self.segs())
    }

    /// The observable key-value mapping.
    pub closed spec fn kv(self) -> Map<Seq<char>, Seq<char>> {
        self.replay().unwrap().kv
    }

    /// The dead characters the log holds: superseded records and `Remove`
    /// records.
    pub closed spec fn dead(self) -> nat {
        self.replay().unwrap().dead
    }

    /// The total characters the log holds.
    pub closed spec fn size(self) -> int {
        total_len(self.segs())
    }

    /// The active segment's generation.
    pub closed spec fn active_version(self) -> u64 {
        self.segs().last().0
    }

    /// The published safe point.
    pub closed spec fn safe_point_val(self) -> u64 {
        self.safe_point
    }

    /// The writer's wasted-characters estimate.
    pub closed spec fn wasted(self) -> u64 {
        self.uncompacted
    }

    /// The length of the record `key`'s index entry, zero when absent.
    pub open spec fn entry_len(self, key: Seq<char>) -> nat {
        if self.index_view().dom().contains(key) {
            self.index_view()[key].len as nat
        } else {
            0
        }
    }

    /// The store's well-formedness: at least one segment; strictly
    /// increasing generations; replay succeeds and rebuilds exactly the
    /// index; every entry points at a whole `Set` record carrying its key
    /// and value; the wasted-bytes estimate is the dead-character count,
    /// clamped into its counter; the log's size fits the counter; no
    /// segment lies below the safe point.
    pub closed spec fn wf(self) -> bool {
        &&& self.segs().len() >= 1
        &&& forall|i: int, j: int|
            0 <= i < j < self.segs().len() ==> (#[trigger] self.segs()[i]).0
                < (#[trigger] self.segs()[j]).0
        &&& self.replay() is Some
        &&& self.replay().unwrap().idx == skipmap_view(self.index)
        &&& state_valid(self.segs(), self.replay().unwrap())
        &&& self.uncompacted == sat64(self.dead() as int)
        &&& total_len(self.segs()) <= u64::MAX
        &&& self.safe_point <= self.segs()[0].0
    }
}

/// Copies the record text an index entry points at, out of the segment that
/// holds it.
fn read_chunk(
    segments: &Vec<Segment>,
    ci: CommandIndex,
    Ghost(key): Ghost<Seq<char>>,
    Ghost(value): Ghost<Seq<char>>,
) -> (r: Vec<char>)
    requires
        entry_valid(segs_of(segments@), key, ci, value),
        forall|i: int, j: int|
            0 <= i < j < segments@.len() ==> (#[trigger] segs_of(segments@)[i]).0
                < (#[trigger] segs_of(segments@)[j]).0,
    ensures
        r@.len() == ci.len,
        parse_rec(r@, 0) == Some((Rec::Put { key, value }, ci.len as int)),
{
    let ghost segsv = segs_of(segments@);
    let ghost jw = choose|j: int|
        0 <= j < segsv.len() && (#[trigger] segsv[j]).0 == ci.version && ci.start + ci.len
            <= segsv[j].1.len() && parse_rec(segsv[j].1, ci.start as int) == Some(
            (Rec::Put { key, value }, ci.start + ci.len),
        );
    let n = segments.len();
    let mut j: usize = 0;
    while j < n
        invariant
            n == segments@.len(),
            j <= n,
            forall|jj: int| 0 <= jj < j ==> (#[trigger] segs_of(segments@)[jj]).0 != ci.version,
            entry_valid(segs_of(segments@), key, ci, value),
            forall|i1: int, j1: int|
                0 <= i1 < j1 < segments@.len() ==> (#[trigger] segs_of(segments@)[i1]).0
                    < (#[trigger] segs_of(segments@)[j1]).0,
            0 <= jw < segsv.len() && segsv[jw].0 == ci.version && ci.start + ci.len
                <= segsv[jw].1.len() && parse_rec(segsv[jw].1, ci.start as int) == Some(
                (Rec::Put { key, value }, ci.start + ci.len),
            ),
            segsv == segs_of(segments@),
        decreases n - j,
    {
        let seg = &segments[j];
        if seg.version == ci.version {
            proof {
                assert(segsv[j as int].0 == seg.version);
                if jw < j as int {
                    assert(segsv[jw].0 < segsv[j as int].0);
                    assert(false);
                }
                if jw > j as int {
                    assert(segsv[j as int].0 < segsv[jw].0);
                    assert(false);
                }
                assert(jw == j as int);
                assert(segsv[jw].1 == seg.data@);
            }
            let mut buf: Vec<char> = Vec::new();
            let mut i: usize = 0;
            let dl = seg.data.len();
            while i < ci.len
                invariant
                    i <= ci.len,
                    dl == seg.data@.len(),
                    ci.start + ci.len <= dl,
                    buf@ == seg.data@.subrange(ci.start as int, ci.start as int + i as int),
                    parse_rec(seg.data@, ci.start as int) == Some(
                        (Rec::Put { key, value }, ci.start + ci.len),
                    ),
                decreases ci.len - i,
            {
                let ghost prev = buf@;
                buf.push(seg.data[ci.start + i]);
                i = i + 1;
                proof {
                    assert(buf@ =~= seg.data@.subrange(ci.start as int, ci.start as int + i as int));
                }
            }
            proof {
                assert(buf@ == seg.data@.subrange(ci.start as int, ci.start + ci.len));
                assert(buf@.subrange(0, ci.len as int) =~= buf@);
                lemma_parse_rec_local(seg.data@, ci.start as int, buf@, 0);
            }
            return buf;
        }
        j = j + 1;
    }
    proof {
        assert(segsv[jw].0 == ci.version);
        assert(false);
    }
    unreached()
}

impl KvStore {
    /// The value `key` maps to, or `None` when it is absent. Never fails on
    /// a well-formed store: every indexed location decodes to a `Set`
    /// record with that key.
    pub fn get(&self, key: String) -> (r: Result<Option<String>, KvError>)
        requires
            self.wf(),
        ensures
            match r {
                Ok(v) => (v is Some <==> self.kv().dom().contains(key@)) && (v is Some
                    ==> v.unwrap()@ == self.kv()[key@]),
                Err(_) => false,
            },
    {
        let ghost st = self.replay().unwrap();
        match index_get(&self.index, key.as_str()) {
            None => {
                proof {
                    assert(!st.idx.dom().contains(key@));
                    assert(!self.kv().dom().contains(key@));
                }
                Ok(None)
            },
            Some(ci) => {
                proof {
                    assert(st.idx.dom().contains(key@));
                    assert(entry_valid(self.segs(), key@, ci, st.kv[key@]));
                }
                let chunk = read_chunk(&self.segments, ci, Ghost(key@), Ghost(st.kv[key@]));
                match parse_command(&chunk, 0) {
                    Some((cmd, _end)) => {
                        match cmd {
                            Command::Put { key: _k, value } => {
                                proof {
                                    assert(cmd@ == (Rec::Put { key: key@, value: st.kv[key@] }));
                                }
                                Ok(Some(value))
                            },
                            Command::Remove { key: _k } => {
                                proof {
                                    assert(cmd@ is Remove);
                                    assert(false);
                                }
                                Err(KvError::UnexpectedCommandType)
                            },
                        }
                    },
                    None => {
                        proof {
                            assert(false);
                        }
                        Err(KvError::Decode)
                    },
                }
            },
        }
    }

    /// How many segments the log holds.
    pub fn segment_count(&self) -> (r: usize)
        ensures
            r == self.segs().len(),
    {
        self.segments.len()
    }

    /// The generation of the `i`th segment, in ascending order.
    pub fn segment_version(&self, i: usize) -> (r: u64)
        requires
            i < self.segs().len(),
        ensures
            r == self.segs()[i as int].0,
    {
        self.segments[i].version
    }

    /// The full text of the `i`th segment.
    pub fn segment_text(&self, i: usize) -> (r: String)
        requires
            i < self.segs().len(),
        ensures
            r@ == self.segs()[i as int].1,
    {
        chars_to_string(&self.segments[i].data)
    }

    /// The generation currently accepting appends.
    pub fn current_version(&self) -> (r: u64)
        requires
            self.wf(),
        ensures
            r == self.active_version(),
    {
        let n = self.segments.len();
        self.segments[n - 1].version
    }

    /// The lowest generation a reader may still need.
    pub fn current_safe_point(&self) -> (r: u64)
        ensures
            r == self.safe_point_val(),
    {
        self.safe_point
    }

    /// The writer's wasted-characters estimate.
    pub fn wasted_estimate(&self) -> (r: u64)
        ensures
            r == self.wasted(),
    {
        self.uncompacted
    }

    /// The total characters the log holds, across all segments.
    pub fn total_size(&self) -> (r: u64)
        requires
            self.wf(),
        ensures
            r == self.size(),
    {
        let mut sum: u64 = 0;
        let mut i: usize = 0;
        let n = self.segments.len();
        proof {
            assert(self.segs().take(0) =~= Seq::<(u64, Seq<char>)>::empty());
            lemma_total_len_nonneg(self.segs());
        }
        while i < n
            invariant
                i <= n,
                n == self.segs().len(),
                self.wf(),
                sum == total_len(self.segs().take(i as int)),
                sum <= total_len(self.segs()),
            decreases n - i,
        {
            proof {
                assert(self.segs().take(i as int).push(self.segs()[i as int]) =~= self.segs().take(
                    i as int + 1,
                ));
                lemma_total_len_snoc(self.segs().take(i as int), self.segs()[i as int]);
                lemma_total_len_split(self.segs(), i as int + 1);
            }
            sum = sum + (self.segments[i].data.len() as u64);
            i = i + 1;
        }
        proof {
            assert(self.segs().take(n as int) =~= self.segs());
        }
        sum
    }
}

/// The total length splits at any point.
pub proof fn lemma_total_len_split(segs: Seq<(u64, Seq<char>)>, k: int)
    requires
        0 <= k <= segs.len(),
    ensures
        total_len(segs) == total_len(segs.take(k)) + total_len(segs.skip(k)),
        total_len(segs.skip(k)) >= 0,
        total_len(segs.take(k)) >= 0,
    decreases k,
{
    lemma_total_len_nonneg(segs.skip(k));
    lemma_total_len_nonneg(segs.take(k));
    if k == 0 {
        assert(segs.take(0) =~= Seq::<(u64, Seq<char>)>::empty());
        assert(segs.skip(0) =~= segs);
    } else {
        assert(segs.take(k)[0] == segs[0]);
        lemma_total_len_split(segs.drop_first(), k - 1);
        assert(segs.take(k).drop_first() =~= segs.drop_first().take(k - 1));
        assert(segs.skip(k) =~= segs.drop_first().skip(k - 1));
    }
}

/// The total length is never negative.
pub proof fn lemma_total_len_nonneg(segs: Seq<(u64, Seq<char>)>)
    ensures
        total_len(segs) >= 0,
    decreases segs.len(),
{
    if segs.len() > 0 {
        lemma_total_len_nonneg(segs.drop_first());
    }
}

impl KvStore {
    /// Opens a store over the segments read from a directory, replaying them
    /// in ascending generation order and appending a fresh active segment at
    /// the next generation. Fails exactly where some segment holds a
    /// malformed or truncated record.
    pub fn open(segments: Vec<Segment>) -> (r: Result<KvStore, KvError>)
        requires
            forall|i: int, j: int|
                0 <= i < j < segments@.len() ==> (#[trigger] segs_of(segments@)[i]).0
                    < (#[trigger] segs_of(segments@)[j]).0,
            forall|i: int|
                0 <= i < segments@.len() ==> (#[trigger] segs_of(segments@)[i]).0 < u64::MAX,
            total_len(segs_of(segments@)) <= u64::MAX,
        ensures
            r is Ok <==> replay_all(segs_of(segments@)) is Some,
            r is Err ==> r == Err::<KvStore, KvError>(KvError::Decode),
            r is Ok ==> r.unwrap().safe_point_val() == 0,
            r is Ok ==> r.unwrap().dead() == replay_all(segs_of(segments@)).unwrap().dead,
            r is Ok ==> r.unwrap().wf() && r.unwrap().kv() == replay_all(
                segs_of(segments@),
            ).unwrap().kv && r.unwrap().segs() == segs_of(segments@).push(
                (
                    (if segments@.len() == 0 {
                        1u64
                    } else {
                        (segs_of(segments@).last().0 + 1) as u64
                    }),
                    Seq::<char>::empty(),
                ),
            ),
    {
        let ghost input = segs_of(segments@);
        let mut index = index_new();
        let mut unc: u64 = 0;
        let ghost mut st = empty_state();
        let n = segments.len();
        let mut i: usize = 0;
        proof {
            assert(input.take(0) =~= Seq::<(u64, Seq<char>)>::empty());
        }
        while i < n
            invariant
                i <= n,
                n == segments@.len(),
                input == segs_of(segments@),
                replay_segs(input.take(i as int), empty_state()) == Some(st),
                st.idx == skipmap_view(index),
                unc == sat64(st.dead as int),
            decreases n - i,
        {
            let seg = &segments[i];
            let ver = seg.version;
            let dl = seg.data.len();
            let mut pos: usize = 0;
            let ghost st0 = st;
            proof {
                assert(input[i as int] == (ver, seg.data@));
            }
            while pos < dl
                invariant
                    pos <= dl,
                    i < n,
                    n == segments@.len(),
                    input == segs_of(segments@),
                    dl == seg.data@.len(),
                    seg == &segments@[i as int],
                    ver == input[i as int].0,
                    seg.data@ == input[i as int].1,
                    replay_segs(input.take(i as int), empty_state()) == Some(st0),
                    replay_seg(seg.data@, ver, 0, st0) == replay_seg(seg.data@, ver, pos as int, st),
                    st.idx == skipmap_view(index),
                    unc == sat64(st.dead as int),
                decreases dl - pos,
            {
                match parse_command(&seg.data, pos) {
                    None => {
                        proof {
                            assert(replay_seg(seg.data@, ver, pos as int, st) is None);
                            lemma_replay_segs_split(input, i as int, empty_state());
                            assert(input.skip(i as int)[0] == input[i as int]);
                            assert(replay_segs(input.skip(i as int), st0) is None);
                        }
                        return Err(KvError::Decode);
                    },
                    Some((cmd, end)) => {
                        let ghost rstep = cmd@;
                        let ghost st_before = st;
                        match cmd {
                            Command::Put { key, value: _v } => {
                                match index_get(&index, key.as_str()) {
                                    Some(oc) => {
                                        proof {
                                            lemma_sat64_add(st.dead as int, oc.len as int);
                                        }
                                        unc = sat_add(unc, oc.len as u64);
                                    },
                                    None => {},
                                }
                                index_insert(
                                    &mut index,
                                    key,
                                    CommandIndex { version: ver, start: pos, len: end - pos },
                                );
                            },
                            Command::Remove { key } => {
                                match index_remove(&mut index, key.as_str()) {
                                    Some(oc) => {
                                        proof {
                                            lemma_sat64_add(st.dead as int, oc.len as int);
                                        }
                                        unc = sat_add(unc, oc.len as u64);
                                    },
                                    None => {},
                                }
                                proof {
                                    lemma_sat64_add(
                                        st.dead as int + old_len(st, rstep->Remove_key),
                                        (end - pos) as int,
                                    );
                                }
                                unc = sat_add(unc, (end - pos) as u64);
                            },
                        }
                        proof {
                            st = apply_rec(st, rstep, ver, pos as int, end as int);
                            assert(replay_seg(seg.data@, ver, pos as int, st_before) == replay_seg(
                                seg.data@,
                                ver,
                                end as int,
                                st,
                            ));
                        }
                        pos = end;
                    },
                }
            }
            proof {
                assert(replay_seg(seg.data@, ver, dl as int, st) == Some(st));
                lemma_replay_segs_snoc(input.take(i as int), input[i as int], empty_state());
                assert(input.take(i as int).push(input[i as int]) =~= input.take(i as int + 1));
            }
            i = i + 1;
        }
        proof {
            assert(input.take(n as int) =~= input);
        }
        let av: u64 = if n == 0 {
            1
        } else {
            segments[n - 1].version + 1
        };
        let mut segments = segments;
        segments.push(
            Segment { version: av, data: Vec::new() },
        );
        let store = KvStore { segments, index, uncompacted: unc, safe_point: 0 };
        proof {
            assert(store.segs() =~= input.push((av, Seq::<char>::empty())));
            lemma_replay_segs_snoc(input, (av, Seq::<char>::empty()), empty_state());
            assert(replay_seg(Seq::<char>::empty(), av, 0, st) == Some(st));
            assert(store.replay() == Some(st));
            lemma_total_len_snoc(input, (av, Seq::<char>::empty()));
            assert(state_valid(store.segs(), empty_state())) by {
                assert(empty_state().kv.dom() =~= empty_state().idx.dom());
            }
            assert forall|k: int|
                0 <= k < input.len() implies (exists|j: int|
                0 <= j < store.segs().len() && (#[trigger] store.segs()[j]) == input[k]) && (
            #[trigger] input[k]).1.len() <= usize::MAX by {
                assert(store.segs()[k] == input[k]);
                assert(input[k].1 == segments@[k].data@);
                assert(spec_vec_len(&segments@[k].data) <= usize::MAX);
                assert(segments@[k].data@.len() <= usize::MAX);
            }
            lemma_replay_segs_valid(store.segs(), input, empty_state());
            assert forall|i1: int, j1: int|
                0 <= i1 < j1 < store.segs().len() implies (#[trigger] store.segs()[i1]).0 < (
            #[trigger] store.segs()[j1]).0 by {
                if j1 == store.segs().len() - 1 {
                    if n > 0 {
                        assert(input[i1].0 <= input[n - 1].0);
                    }
                }
            }
            assert(store.wf());
        }
        Ok(store)
    }
}


/// The compaction loop's running state: the fresh segment's text replays to
/// exactly the entries copied so far, nothing in it is dead, and every entry
/// points at a whole `Set` record within it.
pub open spec fn compact_ok(data: Seq<char>, cv: u64, stc: ReplayState) -> bool {
    &&& replay_seg(data, cv, 0, empty_state()) == Some(stc)
    &&& stc.dead == 0
    &&& stc.kv.dom() == stc.idx.dom()
    &&& forall|k: Seq<char>|
        #[trigger] stc.idx.dom().contains(k) ==> stc.idx[k].version == cv && stc.idx[k].start
            + stc.idx[k].len <= data.len() && parse_rec(data, stc.idx[k].start as int) == Some(
            (Rec::Put { key: k, value: stc.kv[k] }, stc.idx[k].start + stc.idx[k].len),
        )
}

/// Copying one more live record keeps the compaction state intact.
pub proof fn lemma_compact_step(
    data_old: Seq<char>,
    cv: u64,
    stc: ReplayState,
    key: Seq<char>,
    value: Seq<char>,
    chunk: Seq<char>,
)
    requires
        compact_ok(data_old, cv, stc),
        parse_rec(chunk, 0) == Some((Rec::Put { key, value }, chunk.len() as int)),
        !stc.idx.dom().contains(key),
        data_old.len() + chunk.len() <= usize::MAX,
    ensures
        compact_ok(
            data_old + chunk,
            cv,
            apply_rec(
                stc,
                Rec::Put { key, value },
                cv,
                data_old.len() as int,
                data_old.len() as int + chunk.len() as int,
            ),
        ),
{
    let newdata = data_old + chunk;
    let rec = Rec::Put { key, value };
    let newst = apply_rec(stc, rec, cv, data_old.len() as int, data_old.len() as int + chunk.len() as int);
    lemma_replay_seg_append(data_old, cv, 0, empty_state(), chunk, rec);
    assert(newdata.subrange(data_old.len() as int, data_old.len() as int + chunk.len() as int)
        =~= chunk);
    lemma_parse_rec_of_chunk(chunk, rec, newdata, data_old.len() as int);
    assert forall|k: Seq<char>| #[trigger] newst.idx.dom().contains(k) implies newst.idx[k].version
        == cv && newst.idx[k].start + newst.idx[k].len <= newdata.len() && parse_rec(
        newdata,
        newst.idx[k].start as int,
    ) == Some((Rec::Put { key: k, value: newst.kv[k] }, newst.idx[k].start + newst.idx[k].len)) by {
        if k == key {
        } else {
            assert(stc.idx.dom().contains(k));
            let cio = stc.idx[k];
            assert(newdata.subrange(cio.start as int, cio.start + cio.len) =~= data_old.subrange(
                cio.start as int,
                cio.start + cio.len,
            ));
            lemma_parse_rec_local(data_old, cio.start as int, newdata, cio.start as int);
        }
    }
    assert(newst.kv.dom() =~= newst.idx.dom());
}

/// Appending one whole record to the active segment replays to the old state
/// advanced by that record, and grows the total by the record's length.
pub proof fn lemma_store_append(
    oldsegs: Seq<(u64, Seq<char>)>,
    newsegs: Seq<(u64, Seq<char>)>,
    chunk: Seq<char>,
    r: Rec,
)
    requires
        replay_all(oldsegs) is Some,
        oldsegs.len() >= 1,
        parse_rec(chunk, 0) == Some((r, chunk.len() as int)),
        newsegs == oldsegs.update(
            oldsegs.len() - 1,
            (oldsegs.last().0, oldsegs.last().1 + chunk),
        ),
    ensures
        replay_all(newsegs) == Some(
            apply_rec(
                replay_all(oldsegs).unwrap(),
                r,
                oldsegs.last().0,
                oldsegs.last().1.len() as int,
                oldsegs.last().1.len() as int + chunk.len() as int,
            ),
        ),
        total_len(newsegs) == total_len(oldsegs) + chunk.len(),
{
    let front = oldsegs.drop_last();
    let last = oldsegs.last();
    let version = last.0;
    assert(oldsegs =~= front.push(last));
    lemma_replay_segs_snoc(front, last, empty_state());
    let stf = replay_segs(front, empty_state()).unwrap();
    lemma_replay_seg_append(last.1, version, 0, stf, chunk, r);
    lemma_replay_segs_snoc(front, (version, last.1 + chunk), empty_state());
    assert(newsegs =~= front.push((version, last.1 + chunk)));
    lemma_total_len_snoc(front, last);
    lemma_total_len_snoc(front, (version, last.1 + chunk));
}

/// After appending a `Set` record and indexing it, every entry is valid.
pub proof fn lemma_set_valid(
    oldsegs: Seq<(u64, Seq<char>)>,
    newsegs: Seq<(u64, Seq<char>)>,
    oldst: ReplayState,
    key: Seq<char>,
    value: Seq<char>,
    chunk: Seq<char>,
)
    requires
        state_valid(oldsegs, oldst),
        oldsegs.len() >= 1,
        oldsegs.last().1.len() + chunk.len() <= usize::MAX,
        parse_rec(chunk, 0) == Some((Rec::Put { key, value }, chunk.len() as int)),
        newsegs == oldsegs.update(
            oldsegs.len() - 1,
            (oldsegs.last().0, oldsegs.last().1 + chunk),
        ),
    ensures
        state_valid(
            newsegs,
            apply_rec(
                oldst,
                Rec::Put { key, value },
                oldsegs.last().0,
                oldsegs.last().1.len() as int,
                oldsegs.last().1.len() as int + chunk.len() as int,
            ),
        ),
{
    let start = oldsegs.last().1.len() as int;
    let newdata = oldsegs.last().1 + chunk;
    let newst = apply_rec(
        oldst,
        Rec::Put { key, value },
        oldsegs.last().0,
        start,
        start + chunk.len() as int,
    );
    assert forall|j: int|
        0 <= j < oldsegs.len() implies (#[trigger] newsegs[j]).0 == oldsegs[j].0 && oldsegs[j].1.len()
        <= newsegs[j].1.len() && newsegs[j].1.subrange(0, oldsegs[j].1.len() as int)
        == oldsegs[j].1 by {
        if j == oldsegs.len() - 1 {
            assert(newsegs[j].1.subrange(0, oldsegs[j].1.len() as int) =~= oldsegs[j].1);
        } else {
            assert(newsegs[j].1.subrange(0, oldsegs[j].1.len() as int) =~= oldsegs[j].1);
        }
    }
    lemma_state_valid_grow(oldsegs, newsegs, oldst);
    assert(newdata.subrange(start, start + chunk.len() as int) =~= chunk);
    lemma_parse_rec_of_chunk(chunk, Rec::Put { key, value }, newdata, start);
    let ci = CommandIndex {
        version: oldsegs.last().0,
        start: start as usize,
        len: chunk.len() as usize,
    };
    assert(newsegs[newsegs.len() - 1] == (oldsegs.last().0, newdata));
    assert(entry_valid(newsegs, key, ci, value));
    assert(newst.kv.dom() =~= newst.idx.dom());
}

/// After appending a `Remove` record and dropping the key, every entry is
/// valid.
pub proof fn lemma_remove_valid(
    oldsegs: Seq<(u64, Seq<char>)>,
    newsegs: Seq<(u64, Seq<char>)>,
    oldst: ReplayState,
    key: Seq<char>,
    chunk: Seq<char>,
)
    requires
        state_valid(oldsegs, oldst),
        oldsegs.len() >= 1,
        oldsegs.last().1.len() + chunk.len() <= usize::MAX,
        parse_rec(chunk, 0) == Some((Rec::Remove { key }, chunk.len() as int)),
        newsegs == oldsegs.update(
            oldsegs.len() - 1,
            (oldsegs.last().0, oldsegs.last().1 + chunk),
        ),
    ensures
        state_valid(
            newsegs,
            apply_rec(
                oldst,
                Rec::Remove { key },
                oldsegs.last().0,
                oldsegs.last().1.len() as int,
                oldsegs.last().1.len() as int + chunk.len() as int,
            ),
        ),
{
    let newst = apply_rec(
        oldst,
        Rec::Remove { key },
        oldsegs.last().0,
        oldsegs.last().1.len() as int,
        oldsegs.last().1.len() as int + chunk.len() as int,
    );
    assert forall|j: int|
        0 <= j < oldsegs.len() implies (#[trigger] newsegs[j]).0 == oldsegs[j].0 && oldsegs[j].1.len()
        <= newsegs[j].1.len() && newsegs[j].1.subrange(0, oldsegs[j].1.len() as int)
        == oldsegs[j].1 by {
        assert(newsegs[j].1.subrange(0, oldsegs[j].1.len() as int) =~= oldsegs[j].1);
    }
    lemma_state_valid_grow(oldsegs, newsegs, oldst);
    assert(newst.kv.dom() =~= newst.idx.dom());
}

impl KvStore {
    /// Appends `text` to the active segment, reporting the offset at which
    /// it begins.
    fn append_active(&mut self, text: &Vec<char>) -> (start: usize)
        requires
            old(self).segments@.len() >= 1,
        ensures
            final(self).segments@.len() == old(self).segments@.len(),
            final(self).index == old(self).index,
            final(self).uncompacted == old(self).uncompacted,
            final(self).safe_point == old(self).safe_point,
            final(self).segs() == old(self).segs().update(
                old(self).segs().len() - 1,
                (old(self).segs().last().0, old(self).segs().last().1 + text@),
            ),
            start == old(self).segs().last().1.len(),
            old(self).segs().last().1.len() + text@.len() <= usize::MAX,
    {
        let ghost oldsegs = self.segs();
        let ghost oldvec = self.segments@;
        let mut active = self.segments.pop().unwrap();
        let start = active.data.len();
        let mut i: usize = 0;
        let tl = text.len();
        let ghost olddata = active.data@;
        let ghost vver = active.version;
        proof {
            assert(olddata == oldvec.last().data@);
            assert(vver == oldvec.last().version);
            assert(oldsegs.last() == (vver, olddata));
        }
        while i < tl
            invariant
                i <= tl,
                tl == text@.len(),
                active.version == vver,
                active.data@ == olddata + text@.subrange(0, i as int),
            decreases tl - i,
        {
            active.data.push(text[i]);
            i = i + 1;
            proof {
                assert(active.data@ =~= olddata + text@.subrange(0, i as int));
            }
        }
        proof {
            assert(text@.subrange(0, tl as int) =~= text@);
            assert(active.data@ == olddata + text@);
            assert(spec_vec_len(&active.data) <= usize::MAX);
        }
        self.segments.push(active);
        proof {
            let n = oldvec.len() as int;
            let target = oldsegs.update(n - 1, (vver, olddata + text@));
            assert forall|j: int| 0 <= j < n implies self.segs()[j] == target[j] by {
                if j < n - 1 {
                    assert(self.segments@[j] == oldvec.subrange(0, n - 1)[j]);
                    assert(oldvec.subrange(0, n - 1)[j] == oldvec[j]);
                    assert(self.segs()[j] == (oldvec[j].version, oldvec[j].data@));
                    assert(oldsegs[j] == (oldvec[j].version, oldvec[j].data@));
                } else {
                    assert(self.segments@[j] == self.segments@.last());
                    assert(self.segs()[j] == (vver, olddata + text@));
                }
            }
            assert(self.segs() =~= target);
        }
        start
    }

    /// Makes `key` map to `value`: appends a `Set` record to the active
    /// segment, indexes it, counts any superseded record as wasted, and
    /// compacts when the waste estimate crosses the threshold.
    #[verifier::rlimit(100)]
    pub fn set(&mut self, key: String, value: String) -> (r: WriteEffect)
        requires
            old(self).wf(),
            total_len(old(self).segs()) + rec_text(Rec::Put { key: key@, value: value@ }).len()
                <= u64::MAX,
        ensures
            final(self).wf(),
            final(self).kv() == old(self).kv().insert(key@, value@),
            r.text@ == rec_text(Rec::Put { key: key@, value: value@ }),
            r.version == old(self).active_version(),
            r.compacted == (old(self).dead() + old(self).entry_len(key@) > COMPACTION_THRESHOLD
                && old(self).active_version() + 2 <= u64::MAX),
            !r.compacted ==> final(self).segs() == old(self).segs().update(
                old(self).segs().len() - 1,
                (
                    old(self).active_version(),
                    old(self).segs().last().1 + rec_text(Rec::Put { key: key@, value: value@ }),
                ),
            ),
            !r.compacted ==> final(self).dead() == old(self).dead() + old(self).entry_len(key@)
                && final(self).index_view() == old(self).index_view().insert(
                key@,
                CommandIndex {
                    version: old(self).active_version(),
                    start: old(self).segs().last().1.len() as usize,
                    len: rec_text(Rec::Put { key: key@, value: value@ }).len() as usize,
                },
            ),
            r.compacted ==> final(self).segs().len() == 2,
            r.compacted ==> final(self).dead() == 0 && final(self).wasted() == 0,
            r.compacted ==> final(self).safe_point_val() == old(self).active_version() + 1,
            r.compacted ==> final(self).active_version() == old(self).active_version() + 2,
            r.compacted ==> final(self).segs()[0].0 == old(self).active_version() + 1,
            r.compacted ==> final(self).index_view().dom() == old(self).index_view().dom().insert(
                key@,
            ),
            r.compacted ==> forall|k: Seq<char>| #[trigger]
                final(self).index_view().dom().contains(k) ==> final(self).index_view()[k].version
                    == old(self).active_version() + 1 && final(self).index_view()[k].len as int == (
                if k == key@ {
                    rec_text(Rec::Put { key: key@, value: value@ }).len() as int
                } else {
                    old(self).index_view()[k].len as int
                }),
            old(self).active_version() + 2 <= u64::MAX ==> final(self).dead()
                <= COMPACTION_THRESHOLD,
    {
        let cmd = Command::set(key.clone(), value);
        let text = encode_command(&cmd);
        let text_str = chars_to_string(&text);
        let version = self.current_version();
        let ghost oldsegs = self.segs();
        let ghost oldst = self.replay().unwrap();
        let ghost rec = cmd@;
        let ghost oldlen = old_len(oldst, key@);
        let tlen = text.len();
        let start = self.append_active(&text);
        proof {
            lemma_parse_rec_text_self(rec);
            lemma_store_append(oldsegs, self.segs(), text@, rec);
            lemma_total_len_nonneg(oldsegs.drop_last());
            lemma_total_len_split(oldsegs, oldsegs.len() - 1);
            lemma_set_valid(oldsegs, self.segs(), oldst, key@, value@, text@);
        }
        let ghost newst = apply_rec(oldst, rec, version, start as int, start as int + tlen as int);
        proof {
            assert(self.replay() == Some(newst));
            assert(newst.dead == oldst.dead + oldlen);
        }
        let old_entry = index_get(&self.index, key.as_str());
        index_insert(&mut self.index, key, CommandIndex { version, start, len: tlen });
        match old_entry {
            Some(oc) => {
                proof {
                    lemma_sat64_add(oldst.dead as int, oc.len as int);
                }
                self.uncompacted = sat_add(self.uncompacted, oc.len as u64);
            },
            None => {},
        }
        proof {
            assert(self.uncompacted == sat64(newst.dead as int));
            assert(state_valid(self.segs(), newst));
            assert(self.wf());
        }
        let ghost mid = *self;
        let mut compacted = false;
        if self.uncompacted > COMPACTION_THRESHOLD && version <= u64::MAX - 2 {
            proof {
                assert(newst.dead > COMPACTION_THRESHOLD);
            }
            self.compact();
            compacted = true;
        } else {
            proof {
                assert(version > u64::MAX - 2 || sat64(newst.dead as int)
                    <= COMPACTION_THRESHOLD);
                assert(version > u64::MAX - 2 || newst.dead <= COMPACTION_THRESHOLD);
            }
        }
        proof {
            assert(mid.active_version() == version);
            assert(mid.index_view() == skipmap_view(old(self).index).insert(
                key@,
                CommandIndex { version, start, len: tlen },
            ));
        }
        WriteEffect { version, text: text_str, compacted }
    }

    /// Removes `key`: fails with `KeyNotFound` when it is absent, writing
    /// nothing; otherwise appends a `Remove` record, drops the index entry,
    /// counts both the superseded record and the `Remove` record itself as
    /// wasted, and compacts past the threshold.
    #[verifier::rlimit(100)]
    pub fn remove(&mut self, key: String) -> (r: Result<WriteEffect, KvError>)
        requires
            old(self).wf(),
            total_len(old(self).segs()) + rec_text(Rec::Remove { key: key@ }).len() <= u64::MAX,
        ensures
            final(self).wf(),
            old(self).kv().dom().contains(key@) ==> r is Ok && final(self).kv() == old(
                self,
            ).kv().remove(key@),
            !old(self).kv().dom().contains(key@) ==> r == Err::<WriteEffect, KvError>(
                KvError::KeyNotFound,
            ) && *final(self) == *old(self),
            r is Ok ==> r.unwrap().text@ == rec_text(Rec::Remove { key: key@ })
                && r.unwrap().version == old(self).active_version(),
            r is Ok ==> r.unwrap().compacted == (old(self).dead() + old(self).entry_len(key@)
                + rec_text(Rec::Remove { key: key@ }).len() > COMPACTION_THRESHOLD && old(
                self,
            ).active_version() + 2 <= u64::MAX),
            r is Ok && !r.unwrap().compacted ==> final(self).segs() == old(self).segs().update(
                old(self).segs().len() - 1,
                (
                    old(self).active_version(),
                    old(self).segs().last().1 + rec_text(Rec::Remove { key: key@ }),
                ),
            ),
            r is Ok && !r.unwrap().compacted ==> final(self).dead() == old(self).dead() + old(
                self,
            ).entry_len(key@) + rec_text(Rec::Remove { key: key@ }).len() && final(self).index_view() == old(self).index_view().remove(key@),
            r is Ok && r.unwrap().compacted ==> final(self).segs().len() == 2 && final(self).dead()
                == 0 && final(self).wasted() == 0,
            r is Ok && r.unwrap().compacted ==> final(self).safe_point_val() == old(
                self,
            ).active_version() + 1 && final(self).active_version() == old(self).active_version()
                + 2 && final(self).segs()[0].0 == old(self).active_version() + 1,
            r is Ok && r.unwrap().compacted ==> final(self).index_view().dom() == old(
                self,
            ).index_view().dom().remove(key@),
            r is Ok && r.unwrap().compacted ==> forall|k: Seq<char>| #[trigger]
                final(self).index_view().dom().contains(k) ==> final(self).index_view()[k].version
                    == old(self).active_version() + 1 && final(self).index_view()[k].len == old(
                    self,
                ).index_view()[k].len,
            old(self).kv().dom().contains(key@) && old(self).active_version() + 2 <= u64::MAX
                ==> final(self).dead() <= COMPACTION_THRESHOLD,
    {
        let ghost oldst = self.replay().unwrap();
        let present = match index_get(&self.index, key.as_str()) {
            Some(_) => true,
            None => false,
        };
        if !present {
            proof {
                assert(!self.kv().dom().contains(key@));
            }
            return Err(KvError::KeyNotFound);
        }
        let cmd = Command::remove(key.clone());
        let text = encode_command(&cmd);
        let text_str = chars_to_string(&text);
        let version = self.current_version();
        let ghost oldsegs = self.segs();
        let ghost rec = cmd@;
        let ghost oldlen = old_len(oldst, key@);
        let tlen = text.len();
        let start = self.append_active(&text);
        proof {
            lemma_parse_rec_text_self(rec);
            lemma_store_append(oldsegs, self.segs(), text@, rec);
            lemma_total_len_nonneg(oldsegs.drop_last());
            lemma_total_len_split(oldsegs, oldsegs.len() - 1);
            lemma_remove_valid(oldsegs, self.segs(), oldst, key@, text@);
        }
        let ghost newst = apply_rec(oldst, rec, version, start as int, start as int + tlen as int);
        proof {
            assert(self.replay() == Some(newst));
            assert(newst.dead == oldst.dead + oldlen + tlen);
        }
        let old_entry = index_remove(&mut self.index, key.as_str());
        match old_entry {
            Some(oc) => {
                proof {
                    lemma_sat64_add(oldst.dead as int, oc.len as int);
                }
                self.uncompacted = sat_add(self.uncompacted, oc.len as u64);
            },
            None => {},
        }
        proof {
            lemma_sat64_add(oldst.dead as int + oldlen, tlen as int);
        }
        self.uncompacted = sat_add(self.uncompacted, tlen as u64);
        proof {
            assert(self.uncompacted == sat64(newst.dead as int));
            assert(state_valid(self.segs(), newst));
            assert(self.wf());
        }
        let ghost mid = *self;
        let mut compacted = false;
        if self.uncompacted > COMPACTION_THRESHOLD && version <= u64::MAX - 2 {
            proof {
                assert(newst.dead > COMPACTION_THRESHOLD);
            }
            self.compact();
            compacted = true;
        } else {
            proof {
                assert(version > u64::MAX - 2 || newst.dead <= COMPACTION_THRESHOLD);
            }
        }
        proof {
            assert(mid.active_version() == version);
            assert(mid.index_view() == skipmap_view(old(self).index).remove(key@));
        }
        Ok(WriteEffect { version, text: text_str, compacted })
    }

    /// Rewrites every live record into a fresh compacted segment, makes the
    /// generation after it the new active segment, publishes the compacted
    /// generation as the safe point, drops all older segments, and resets
    /// the waste estimate.
    #[verifier::rlimit(100)]
    fn compact(&mut self)
        requires
            old(self).wf(),
            old(self).active_version() + 2 <= u64::MAX,
        ensures
            final(self).wf(),
            final(self).kv() == old(self).kv(),
            final(self).dead() == 0,
            final(self).wasted() == 0,
            final(self).segs().len() == 2,
            final(self).safe_point_val() == old(self).active_version() + 1,
            final(self).active_version() == old(self).active_version() + 2,
            final(self).segs()[0].0 == old(self).active_version() + 1,
            final(self).index_view().dom() == old(self).index_view().dom(),
            forall|k: Seq<char>| #[trigger]
                final(self).index_view().dom().contains(k) ==> final(self).index_view()[k].version
                    == old(self).active_version() + 1 && final(self).index_view()[k].len == old(
                    self,
                ).index_view()[k].len,
    {
        let ghost oldself = *self;
        let ghost oldst = self.replay().unwrap();
        let ghost oldkv = oldst.kv;
        let ghost om = skipmap_view(self.index);
        let old_active = self.current_version();
        let compact_version = old_active + 1;
        let new_active = old_active + 2;
        let entries = index_entries(&self.index);
        let mut data: Vec<char> = Vec::new();
        let mut new_index = index_new();
        let ghost mut stc = empty_state();
        let ne = entries.len();
        let mut e: usize = 0;
        while e < ne
            invariant
                e <= ne,
                ne == entries@.len(),
                *self == oldself,
                oldself.wf(),
                oldst == oldself.replay().unwrap(),
                oldkv == oldst.kv,
                om == skipmap_view(oldself.index),
                om == oldst.idx,
                forall|i: int|
                    0 <= i < entries@.len() ==> om.contains_pair(
                        (#[trigger] entries@[i]).0@,
                        entries@[i].1,
                    ),
                forall|i: int, j: int|
                    0 <= i < j < entries@.len() ==> (#[trigger] entries@[i]).0@ != (
                    #[trigger] entries@[j]).0@,
                forall|k: Seq<char>|
                    #[trigger] om.dom().contains(k) ==> exists|i: int|
                        0 <= i < entries@.len() && (#[trigger] entries@[i]).0@ == k,
                compact_ok(data@, compact_version, stc),
                stc.idx == skipmap_view(new_index),
                forall|j: int| 0 <= j < e ==> stc.kv.dom().contains((#[trigger] entries@[j]).0@),
                forall|k: Seq<char>|
                    #[trigger] stc.kv.dom().contains(k) ==> oldkv.dom().contains(k) && stc.kv[k]
                        == oldkv[k] && (exists|j: int|
                        0 <= j < e && (#[trigger] entries@[j]).0@ == k),
                forall|k: Seq<char>|
                    #[trigger] stc.idx.dom().contains(k) ==> om.dom().contains(k) && stc.idx[k].len
                        == om[k].len,
            decreases ne - e,
        {
            let pair = &entries[e];
            let kstr = pair.0.clone();
            let oc = pair.1;
            proof {
                assert(om.contains_pair(entries@[e as int].0@, entries@[e as int].1));
                assert(oldst.idx[kstr@] == oc);
                assert(oldst.idx.dom().contains(kstr@));
                assert(entry_valid(oldself.segs(), kstr@, oc, oldkv[kstr@]));
            }
            let chunk = read_chunk(&self.segments, oc, Ghost(kstr@), Ghost(oldkv[kstr@]));
            let pos = data.len();
            let clen = chunk.len();
            let ghost olddata = data@;
            let ghost oldstc = stc;
            let mut i: usize = 0;
            while i < clen
                invariant
                    i <= clen,
                    clen == chunk@.len(),
                    data@ == olddata + chunk@.subrange(0, i as int),
                decreases clen - i,
            {
                data.push(chunk[i]);
                i = i + 1;
                proof {
                    assert(data@ =~= olddata + chunk@.subrange(0, i as int));
                }
            }
            proof {
                assert(chunk@.subrange(0, clen as int) =~= chunk@);
                assert(data@ == olddata + chunk@);
                let rec = Rec::Put { key: kstr@, value: oldkv[kstr@] };
                assert(!oldstc.idx.dom().contains(kstr@)) by {
                    if oldstc.idx.dom().contains(kstr@) {
                        assert(oldstc.kv.dom().contains(kstr@));
                        let j = choose|j: int| 0 <= j < e && (#[trigger] entries@[j]).0@ == kstr@;
                        assert(entries@[j].0@ != entries@[e as int].0@);
                        assert(false);
                    }
                }
                assert(spec_vec_len(&data) <= usize::MAX);
                lemma_compact_step(olddata, compact_version, oldstc, kstr@, oldkv[kstr@], chunk@);
                stc = apply_rec(oldstc, rec, compact_version, pos as int, pos as int + clen as int);
                assert(clen == om[kstr@].len);
            }
            index_insert(
                &mut new_index,
                kstr,
                CommandIndex { version: compact_version, start: pos, len: clen },
            );
            e = e + 1;
        }
        proof {
            assert(stc.kv =~= oldkv) by {
                assert forall|k: Seq<char>| #[trigger] oldkv.dom().contains(k) implies stc.kv.dom().contains(
                    k,
                ) by {
                    assert(oldst.kv.dom() == oldst.idx.dom());
                    assert(om.dom().contains(k));
                }
            }
            assert(stc.idx.dom() =~= om.dom()) by {
                assert forall|k: Seq<char>| #[trigger] om.dom().contains(k) implies stc.idx.dom().contains(
                    k,
                ) by {
                    assert(oldkv.dom().contains(k));
                    assert(stc.kv.dom().contains(k));
                }
            }
        }
        let ghost datav = data@;
        let mut new_segments: Vec<Segment> = Vec::new();
        new_segments.push(Segment { version: compact_version, data });
        new_segments.push(Segment { version: new_active, data: Vec::new() });
        self.segments = new_segments;
        self.index = new_index;
        self.uncompacted = 0;
        self.safe_point = compact_version;
        proof {
            let c: (u64, Seq<char>) = (compact_version, datav);
            let a: (u64, Seq<char>) = (new_active, Seq::<char>::empty());
            let base = Seq::<(u64, Seq<char>)>::empty();
            assert(self.segs() =~= base.push(c).push(a));
            lemma_replay_segs_snoc(base.push(c), a, empty_state());
            lemma_replay_segs_snoc(base, c, empty_state());
            assert(replay_segs(base, empty_state()) == Some(empty_state()));
            assert(replay_seg(datav, compact_version, 0, empty_state()) == Some(stc));
            assert(replay_seg(Seq::<char>::empty(), new_active, 0, stc) == Some(stc));
            assert(self.replay() == Some(stc));
            assert(state_valid(self.segs(), stc)) by {
                assert forall|k: Seq<char>| #[trigger] stc.idx.dom().contains(k) implies entry_valid(
                    self.segs(),
                    k,
                    stc.idx[k],
                    stc.kv[k],
                ) by {
                    assert(self.segs()[0] == c);
                }
            }
            assert(total_len(self.segs()) <= u64::MAX) by {
                assert(spec_vec_len(&self.segments@[0].data) <= usize::MAX);
                assert(self.segs()[0].1.len() <= usize::MAX);
                lemma_total_len_snoc(base.push(c), a);
                lemma_total_len_snoc(base, c);
                assert(total_len(base) == 0);
            }
            assert(self.uncompacted == sat64(stc.dead as int));
            assert(self.wf());
            assert(old_active == oldself.active_version());
            assert(self.active_version() == new_active);
            assert(self.index_view() == stc.idx);
        }
    }
}

impl KvStore {
    /// The index as rebuilt state: what the skip map holds.
    pub closed spec fn index_view(self) -> Map<Seq<char>, CommandIndex> {
        skipmap_view(self.index)
    }

    /// The live characters: the log's size less its dead characters.
    pub open spec fn live_size(self) -> int {
        self.size() - self.dead()
    }
}

/// Law: a `get(k)` after `set(k, v)` yields `Some(v)`: inserting `k` makes
/// the observable map hold exactly `v` at `k`, whatever it held before.
pub proof fn lemma_round_trip(m: Map<Seq<char>, Seq<char>>, k: Seq<char>, v: Seq<char>)
    ensures
        m.insert(k, v).dom().contains(k),
        m.insert(k, v)[k] == v,
{
}

/// Law: the last `set` wins: a later `set(k, v2)` supersedes an earlier
/// `set(k, v1)`, and a `set` on another key leaves `k` untouched.
pub proof fn lemma_last_set_wins(
    m: Map<Seq<char>, Seq<char>>,
    k: Seq<char>,
    v1: Seq<char>,
    v2: Seq<char>,
    k2: Seq<char>,
    w: Seq<char>,
)
    requires
        k2 != k,
    ensures
        m.insert(k, v1).insert(k, v2)[k] == v2,
        m.insert(k, v1).insert(k2, w)[k] == v1,
{
}

/// Law: after `remove(k)` the key is absent, so `get(k)` yields `None` and a
/// second `remove(k)` fails with `KeyNotFound` (by [`KvStore::remove`]'s
/// contract on a map that lacks the key).
pub proof fn lemma_remove_semantics(m: Map<Seq<char>, Seq<char>>, k: Seq<char>)
    ensures
        !m.remove(k).dom().contains(k),
{
}

/// Law: persistence. Two well-formed stores over the same segments observe
/// the same key-value state: what is on disk determines what is read.
pub proof fn lemma_persistence(s1: KvStore, s2: KvStore)
    requires
        s1.wf(),
        s2.wf(),
        s1.segs() == s2.segs(),
    ensures
        s1.kv() == s2.kv(),
{
}

/// Law: replay equivalence. On a well-formed store, replaying the surviving
/// segments in generation order reconstructs exactly the in-memory index and
/// the observable state; [`KvStore::open`] builds exactly this.
pub proof fn lemma_replay_reconstructs(s: KvStore)
    requires
        s.wf(),
    ensures
        replay_all(s.segs()) is Some,
        replay_all(s.segs()).unwrap().idx == s.index_view(),
        replay_all(s.segs()).unwrap().kv == s.kv(),
{
}

/// Law: compaction safety. Wherever the dead-character count is at or below
/// the compaction threshold — as [`KvStore::set`] and [`KvStore::remove`]
/// ensure after every write while generations remain — the whole log is no
/// larger than the live data plus the threshold.
pub proof fn lemma_size_bound(s: KvStore)
    requires
        s.wf(),
        s.dead() <= COMPACTION_THRESHOLD,
    ensures
        s.size() <= s.live_size() + COMPACTION_THRESHOLD,
{
}

/// The wasted estimate tracks the dead characters exactly, clamped into its
/// counter; below the compaction threshold the two coincide.
pub proof fn lemma_wasted_tracks_dead(s: KvStore)
    requires
        s.wf(),
    ensures
        s.wasted() == sat64(s.dead() as int),
        s.dead() <= COMPACTION_THRESHOLD ==> s.wasted() == s.dead(),
{
}

/// Bridges from the store's observables to its segment view: the active
/// generation is the last segment's, and size, dead count and key-value
/// state are those of replaying the segments.
pub proof fn lemma_store_shape(s: KvStore)
    requires
        s.wf(),
    ensures
        s.segs().len() >= 1,
        s.active_version() == s.segs().last().0,
        s.size() == total_len(s.segs()),
        replay_all(s.segs()) is Some,
        s.dead() == replay_all(s.segs()).unwrap().dead,
        s.kv() == replay_all(s.segs()).unwrap().kv,
{
}

/// Law: the safe point. Every indexed location names a segment that still
/// exists, at or above the published safe point: no reader holding the index
/// entry can be pointed at a deleted segment.
pub proof fn lemma_safe_point(s: KvStore, k: Seq<char>)
    requires
        s.wf(),
        s.index_view().dom().contains(k),
    ensures
        exists|j: int|
            0 <= j < s.segs().len() && (#[trigger] s.segs()[j]).0 == s.index_view()[k].version
                && s.safe_point_val() <= s.segs()[j].0,
{
    let st = s.replay().unwrap();
    assert(st.idx.dom().contains(k));
    assert(entry_valid(s.segs(), k, st.idx[k], st.kv[k]));
    let j = choose|j: int|
        0 <= j < s.segs().len() && (#[trigger] s.segs()[j]).0 == st.idx[k].version && st.idx[k].start
            + st.idx[k].len <= s.segs()[j].1.len() && parse_rec(
            s.segs()[j].1,
            st.idx[k].start as int,
        ) == Some((Rec::Put { key: k, value: st.kv[k] }, st.idx[k].start + st.idx[k].len));
    if j > 0 {
        assert(s.segs()[0].0 < s.segs()[j].0);
    }
    assert(s.safe_point_val() <= s.segs()[j].0);
}

} // verus!
