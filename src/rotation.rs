//! When a log file is rotated, and what a rotation does to the set of
//! retained files.
//!
//! Files are named by slot: slot 0 is the active file at the base path, and
//! slot `k > 0` is the file at the base path with suffix `.{k - 1}`, so that a
//! higher slot holds older records. At most `max_count` slots are used.
//! A rotation is not journaled: a crash in the middle of one may leave a
//! slot missing, never a record split across two files.
use vstd::prelude::*;
use crate::format::push_all;
use crate::lines::concat;

verus! {

/// The bounds of a set of log files.
#[derive(Debug, Clone, Copy, PartialEq, Eq, Structural)]
pub struct RotationPolicy {
    /// Largest number of bytes a file takes before it is rotated.
    pub max_size: u64,
    /// Number of retained files, the active one included.
    pub max_count: usize,
}

impl RotationPolicy {
    pub open spec fn wf(&self) -> bool {
        self.max_size > 0 && self.max_count > 0
    }
}

/// A record of `len` bytes is written to a fresh file exactly when it would
/// take the active file past `max_size`. A record is never split: one longer
/// than `max_size` is written whole to a fresh file.
pub open spec fn needs_rotation(current: nat, len: nat, max_size: nat) -> bool {
    current + len > max_size
}

/// The tracked length of the active file.
#[derive(Debug, Clone, Copy, PartialEq, Eq, Structural)]
pub struct RotationState {
    pub policy: RotationPolicy,
    /// Bytes in the active file.
    pub current: u64,
}

impl RotationState {
    pub open spec fn wf(&self) -> bool {
        self.policy.wf()
    }

    /// Starts on an active file that already holds `existing` bytes.
    pub fn new(policy: RotationPolicy, existing: u64) -> (r: RotationState)
        requires
            policy.wf(),
        ensures
            r.wf(),
            r.policy == policy,
            r.current == existing,
    {
        RotationState { policy, current: existing }
    }

    /// Accounts for a record of `len` bytes about to be written; returns
    /// whether the files must be rotated before it is.
    pub fn before_write(&mut self, len: u64) -> (rotate: bool)
        requires
            old(self).wf(),
        ensures
            final(self).wf(),
            final(self).policy == old(self).policy,
            rotate == needs_rotation(
                old(self).current as nat,
                len as nat,
                old(self).policy.max_size as nat,
            ),
            final(self).current == (if rotate {
                len
            } else {
                (old(self).current + len) as u64
            }),
    {
        let rotate = self.current > self.policy.max_size || len > self.policy.max_size
            - self.current;
        if rotate {
            self.current = len;
        } else {
            self.current = self.current + len;
        }
        rotate
    }
}

/// One step of a rotation on disk.
#[derive(Debug, Clone, Copy, PartialEq, Eq, Structural)]
pub enum FileOp {
    /// Delete the file of a slot, if there is one.
    Remove(usize),
    /// Move the file of the first slot, if there is one, to the second.
    Rename(usize, usize),
}

/// The files on disk, by slot.
pub open spec fn apply_op(m: Map<int, Seq<u8>>, op: FileOp) -> Map<int, Seq<u8>> {
    match op {
        FileOp::Remove(k) => m.remove(k as int),
        FileOp::Rename(a, b) => if m.contains_key(a as int) {
            m.remove(a as int).insert(b as int, m[a as int])
        } else {
            m.remove(b as int)
        },
    }
}

pub open spec fn apply_ops(m: Map<int, Seq<u8>>, ops: Seq<FileOp>) -> Map<int, Seq<u8>>
    decreases ops.len(),
{
    if ops.len() == 0 {
        m
    } else {
        apply_op(apply_ops(m, ops.drop_last()), ops.last())
    }
}

/// The steps of a rotation over `count` slots: the oldest slot is
/// deleted, then every other slot moves one up, oldest first.
pub open spec fn plan_spec(count: nat) -> Seq<FileOp> {
    seq![FileOp::Remove((count - 1) as usize)] + Seq::new(
        (count - 1) as nat,
        |j: int| FileOp::Rename((count - 2 - j) as usize, (count - 1 - j) as usize),
    )
}

/// The slots after a rotation: each file one slot up, the one that falls
/// past `count` gone, slot 0 free for the new active file.
pub open spec fn shifted(m: Map<int, Seq<u8>>, count: nat) -> Map<int, Seq<u8>> {
    Map::new(|k: int| 1 <= k < count && m.contains_key(k - 1), |k: int| m[k - 1])
}

pub open spec fn in_slots(m: Map<int, Seq<u8>>, count: nat) -> bool {
    forall|k: int| #[trigger] m.contains_key(k) ==> 0 <= k < count
}

/// The steps that rotate the files of `count` slots.
pub fn rotation_plan(count: usize) -> (r: Vec<FileOp>)
    requires
        count > 0,
    ensures
        r@ == plan_spec(count as nat),
{
    let mut ops: Vec<FileOp> = Vec::new();
    ops.push(FileOp::Remove(count - 1));
    let mut j: usize = 0;
    while j + 1 < count
        invariant
            count > 0,
            0 <= j < count,
            ops@ == plan_spec(count as nat).subrange(0, j as int + 1),
        decreases count - j,
    {
        ops.push(FileOp::Rename(count - 2 - j, count - 1 - j));
        j = j + 1;
        assert(ops@ =~= plan_spec(count as nat).subrange(0, j as int + 1));
    }
    assert(ops@ =~= plan_spec(count as nat));
    ops
}

/// The slots after the deletion and the first `t` moves of a rotation.
pub open spec fn partly_shifted(m: Map<int, Seq<u8>>, count: nat, t: nat) -> Map<int, Seq<u8>> {
    Map::new(
        |k: int|
            (0 <= k < count - 1 - t && m.contains_key(k)) || (count - t <= k < count
                && m.contains_key(k - 1)),
        |k: int|
            if k < count - 1 - t {
                m[k]
            } else {
                m[k - 1]
            },
    )
}

proof fn lemma_partial_plan(m: Map<int, Seq<u8>>, count: nat, t: nat)
    requires
        0 < count <= usize::MAX,
        t < count,
        in_slots(m, count),
    ensures
        apply_ops(m, plan_spec(count).subrange(0, t as int + 1)) == partly_shifted(m, count, t),
    decreases t,
{
    let ops = plan_spec(count).subrange(0, t as int + 1);
    if t == 0 {
        assert(ops.drop_last() =~= Seq::<FileOp>::empty());
        assert(apply_ops(m, ops.drop_last()) == m);
        assert(ops.last() == FileOp::Remove((count - 1) as usize));
        assert(apply_ops(m, ops) =~= partly_shifted(m, count, 0));
    } else {
        lemma_partial_plan(m, count, (t - 1) as nat);
        assert(ops.drop_last() =~= plan_spec(count).subrange(0, t as int));
        let prev = partly_shifted(m, count, (t - 1) as nat);
        assert(ops.last() == FileOp::Rename((count - 1 - t) as usize, (count - t) as usize));
        assert(apply_op(prev, ops.last()) =~= partly_shifted(m, count, t));
    }
}

/// A rotation on disk moves every retained file one slot up and drops the
/// file that falls past the last slot, whatever files were there.
pub proof fn lemma_rotation_shifts_slots(m: Map<int, Seq<u8>>, count: nat)
    requires
        0 < count <= usize::MAX,
        in_slots(m, count),
    ensures
        apply_ops(m, plan_spec(count)) == shifted(m, count),
        in_slots(shifted(m, count), count),
        !shifted(m, count).contains_key(0),
{
    lemma_partial_plan(m, count, (count - 1) as nat);
    assert(plan_spec(count).subrange(0, count as int) =~= plan_spec(count));
    assert(partly_shifted(m, count, (count - 1) as nat) =~= shifted(m, count));
}

/// The files, newest first, after a rotation: a new empty active file, then
/// the older ones that still fit in `count` slots.
pub open spec fn rotated(files: Seq<Seq<u8>>, count: nat) -> Seq<Seq<u8>> {
    seq![Seq::<u8>::empty()] + (if files.len() < count {
        files
    } else {
        files.subrange(0, count - 1)
    })
}

/// The files, newest first, after a record is written, with a rotation
/// first or not.
pub open spec fn after_write(files: Seq<Seq<u8>>, rec: Seq<u8>, rotate: bool, count: nat) -> Seq<
    Seq<u8>,
> {
    let f = if rotate {
        rotated(files, count)
    } else {
        files
    };
    f.update(0, f[0] + rec)
}

/// The contents of files given newest first, read oldest first.
pub open spec fn joined<T>(files: Seq<Seq<T>>) -> Seq<T>
    decreases files.len(),
{
    if files.len() == 0 {
        Seq::empty()
    } else {
        joined(files.drop_first()) + files[0]
    }
}

pub open spec fn is_suffix(a: Seq<u8>, b: Seq<u8>) -> bool {
    a.len() <= b.len() && b.subrange(b.len() - a.len(), b.len() as int) == a
}

/// The files by slot.
pub open spec fn slots_of(files: Seq<Seq<u8>>) -> Map<int, Seq<u8>> {
    Map::new(|k: int| 0 <= k < files.len(), |k: int| files[k])
}

proof fn lemma_joined_split<T>(s: Seq<Seq<T>>, k: int)
    requires
        0 <= k <= s.len(),
    ensures
        joined(s) == joined(s.subrange(k, s.len() as int)) + joined(s.subrange(0, k)),
    decreases k,
{
    if k == 0 {
        assert(s.subrange(0, 0).len() == 0);
        assert(s.subrange(0, s.len() as int) =~= s);
        assert(joined(s) + Seq::<T>::empty() =~= joined(s));
    } else {
        let df = s.drop_first();
        lemma_joined_split(df, k - 1);
        assert(s.subrange(0, k).drop_first() =~= df.subrange(0, k - 1));
        assert(s.subrange(k, s.len() as int) =~= df.subrange(k - 1, df.len() as int));
        let a = joined(df.subrange(k - 1, df.len() as int));
        let b = joined(df.subrange(0, k - 1));
        assert(a + b + s[0] =~= a + (b + s[0]));
    }
}

/// Writing a record never holds more than `count` files, and what the files
/// hold, read oldest first, is a tail of what they held followed by the
/// record: content leaves only from the oldest end.
pub proof fn lemma_write_evicts_oldest(files: Seq<Seq<u8>>, rec: Seq<u8>, rotate: bool, count: nat)
    requires
        1 <= files.len() <= count,
    ensures
        1 <= after_write(files, rec, rotate, count).len() <= count,
        is_suffix(joined(after_write(files, rec, rotate, count)), joined(files) + rec),
{
    let after = after_write(files, rec, rotate, count);
    if rotate {
        let kept = if files.len() < count {
            files
        } else {
            files.subrange(0, count - 1)
        };
        lemma_joined_split(files, kept.len() as int);
        assert(files.subrange(0, kept.len() as int) =~= kept);
        assert(after.drop_first() =~= kept);
        let x = joined(files.subrange(kept.len() as int, files.len() as int));
        let whole = joined(files) + rec;
        assert(whole =~= x + (joined(kept) + rec));
        assert(whole.subrange(whole.len() - joined(after).len(), whole.len() as int) =~= joined(
            after,
        ));
    } else {
        assert(after.drop_first() =~= files.drop_first());
        assert(joined(after) =~= joined(files) + rec);
        let whole = joined(files) + rec;
        assert(whole.subrange(0, whole.len() as int) =~= whole);
    }
}

/// A rotation in memory and a rotation on disk agree: the files kept in
/// memory, by slot, are those the steps of `rotation_plan` leave, beside the
/// new active file.
pub proof fn lemma_rotation_matches_plan(files: Seq<Seq<u8>>, count: nat)
    requires
        1 <= files.len() <= count <= usize::MAX,
    ensures
        slots_of(rotated(files, count)) == apply_ops(slots_of(files), plan_spec(count)).insert(
            0,
            Seq::empty(),
        ),
{
    lemma_rotation_shifts_slots(slots_of(files), count);
    assert(slots_of(rotated(files, count)) =~= shifted(slots_of(files), count).insert(
        0,
        Seq::empty(),
    ));
}

/// A set of log files held in memory, newest first, kept by the rotation
/// policy.
pub struct LogFiles {
    state: RotationState,
    files: Vec<Vec<u8>>,
}

impl LogFiles {
    pub closed spec fn files_view(&self) -> Seq<Seq<u8>> {
        self.files@.map_values(|v: Vec<u8>| v@)
    }

    pub closed spec fn policy_view(&self) -> RotationPolicy {
        self.state.policy
    }

    /// Bytes in the active file, as the policy tracks them.
    pub closed spec fn current_view(&self) -> nat {
        self.state.current as nat
    }

    /// At least the active file and at most `max_count` files; the
    /// policy tracks the active file's length.
    pub closed spec fn wf(&self) -> bool {
        &&& self.state.wf()
        &&& 1 <= self.files@.len() <= self.state.policy.max_count
        &&& self.files@[0]@.len() == self.state.current
    }

    /// One empty active file.
    pub fn new(policy: RotationPolicy) -> (r: LogFiles)
        requires
            policy.wf(),
        ensures
            r.wf(),
            r.policy_view() == policy,
            r.files_view() == seq![Seq::<u8>::empty()],
            r.current_view() == 0,
            1 <= r.files_view().len() <= r.policy_view().max_count,
    {
        let mut files: Vec<Vec<u8>> = Vec::new();
        files.push(Vec::new());
        let r = LogFiles { state: RotationState::new(policy, 0), files };
        assert(r.files_view() =~= seq![Seq::<u8>::empty()]);
        r
    }

    /// Writes a record, rotating the files first where the policy says so.
    pub fn write(&mut self, record: &[u8])
        requires
            old(self).wf(),
        ensures
            final(self).wf(),
            final(self).policy_view() == old(self).policy_view(),
            1 <= final(self).files_view().len() <= final(self).policy_view().max_count,
            final(self).files_view()[0].len() == final(self).current_view(),
            final(self).files_view() == after_write(
                old(self).files_view(),
                record@,
                needs_rotation(
                    old(self).current_view(),
                    record@.len(),
                    old(self).policy_view().max_size as nat,
                ),
                old(self).policy_view().max_count as nat,
            ),
    {
        let ghost before = self.files_view();
        let ghost count = self.state.policy.max_count as nat;
        let rotate = self.state.before_write(record.len() as u64);
        let ghost mid = if rotate {
            rotated(before, count)
        } else {
            before
        };
        if rotate {
            self.files.insert(0, Vec::new());
            if self.files.len() > self.state.policy.max_count {
                self.files.truncate(self.state.policy.max_count);
            }
            assert(self.files_view() =~= mid);
        }
        let mut active = self.files.remove(0);
        push_all(&mut active, record);
        self.files.insert(0, active);
        assert(self.files_view() =~= mid.update(0, mid[0] + record@));
    }

    /// The number of files held.
    pub fn file_count(&self) -> (r: usize)
        ensures
            r == self.files_view().len(),
    {
        self.files.len()
    }

    /// The file of a slot: 0 is the active file, higher is older.
    pub fn file(&self, slot: usize) -> (r: &[u8])
        requires
            slot < self.files_view().len(),
        ensures
            r@ == self.files_view()[slot as int],
    {
        self.files[slot].as_slice()
    }
}

/// The files, newest first, that writing the records `rs` in order leaves,
/// starting from one empty active file.
pub open spec fn written(rs: Seq<Seq<u8>>, max_size: nat, count: nat) -> Seq<Seq<u8>>
    decreases rs.len(),
{
    if rs.len() == 0 {
        seq![Seq::<u8>::empty()]
    } else {
        let f = written(rs.drop_last(), max_size, count);
        after_write(f, rs.last(), needs_rotation(f[0].len(), rs.last().len(), max_size), count)
    }
}

/// The same files as lists of the records each holds, newest file first.
pub open spec fn record_files(rs: Seq<Seq<u8>>, max_size: nat, count: nat) -> Seq<Seq<Seq<u8>>>
    decreases rs.len(),
{
    if rs.len() == 0 {
        seq![Seq::<Seq<u8>>::empty()]
    } else {
        let f = record_files(rs.drop_last(), max_size, count);
        let r = rs.last();
        if needs_rotation(concat(f[0]).len(), r.len(), max_size) {
            seq![seq![r]] + (if f.len() < count {
                f
            } else {
                f.subrange(0, count - 1)
            })
        } else {
            f.update(0, f[0].push(r))
        }
    }
}

/// The bytes of files given as lists of records.
pub open spec fn file_bytes(f: Seq<Seq<Seq<u8>>>) -> Seq<Seq<u8>> {
    Seq::new(f.len(), |k: int| concat(f[k]))
}

/// Writing records in order keeps at most `count` files, each made of whole
/// records, and the records they hold, oldest first, are the last records
/// written, in order: records leave only from the oldest end, whole.
/// `written` starts from the files of `LogFiles::new` and takes each record
/// as the contract of `LogFiles::write` does.
pub proof fn lemma_writes_keep_last_records(rs: Seq<Seq<u8>>, max_size: nat, count: nat)
    requires
        count >= 1,
    ensures
        written(rs, max_size, count) == file_bytes(record_files(rs, max_size, count)),
        1 <= written(rs, max_size, count).len() <= count,
        exists|j: int|
            0 <= j <= rs.len() && #[trigger] joined(record_files(rs, max_size, count)) == rs.subrange(
                j,
                rs.len() as int,
            ),
    decreases rs.len(),
{
    let rf = record_files(rs, max_size, count);
    if rs.len() == 0 {
        assert(file_bytes(rf) =~= seq![Seq::<u8>::empty()]);
        assert(joined(rf.drop_first()) == Seq::<Seq<u8>>::empty());
        assert(joined(rf) =~= rs.subrange(0, 0));
    } else {
        let prev = rs.drop_last();
        let r = rs.last();
        lemma_writes_keep_last_records(prev, max_size, count);
        let f = record_files(prev, max_size, count);
        let w = written(prev, max_size, count);
        let j = choose|j: int|
            0 <= j <= prev.len() && #[trigger] joined(f) == prev.subrange(j, prev.len() as int);
        assert(w[0] == concat(f[0]));
        if needs_rotation(concat(f[0]).len(), r.len(), max_size) {
            let kept = if f.len() < count {
                f
            } else {
                f.subrange(0, count - 1)
            };
            assert(rf == seq![seq![r]] + kept);
            assert(seq![r].drop_last() =~= Seq::<Seq<u8>>::empty());
            assert(concat(seq![r].drop_last()) == Seq::<u8>::empty());
            assert(concat(seq![r]) =~= r);
            assert(written(rs, max_size, count) =~= file_bytes(rf));
            lemma_joined_split(f, kept.len() as int);
            assert(f.subrange(0, kept.len() as int) =~= kept);
            assert(rf.drop_first() =~= kept);
            let a = joined(f.subrange(kept.len() as int, f.len() as int));
            let j2 = j + a.len();
            assert(prev.subrange(j, prev.len() as int) =~= a + joined(kept));
            let s1 = prev.subrange(j, prev.len() as int);
            assert(s1.subrange(a.len() as int, s1.len() as int) =~= joined(kept));
            assert(s1.subrange(a.len() as int, s1.len() as int) =~= prev.subrange(
                j2,
                prev.len() as int,
            ));
            assert(joined(rf) =~= rs.subrange(j2, rs.len() as int));
        } else {
            assert(rf == f.update(0, f[0].push(r)));
            assert(f[0].push(r).drop_last() =~= f[0]);
            assert(concat(f[0].push(r)) == concat(f[0]) + r);
            assert(written(rs, max_size, count) =~= file_bytes(rf));
            assert(rf.drop_first() =~= f.drop_first());
            assert(joined(rf) =~= joined(f).push(r));
            assert(joined(rf) =~= rs.subrange(j, rs.len() as int));
        }
    }
}

} // verus!
