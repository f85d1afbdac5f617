use crate::shash::{fingerprint_of, Shash, ShashView};
use vstd::prelude::*;

verus! {

/// What one pass observed of one service subdirectory: either the full
/// content of its launch script, or the fact that the entry could not be
/// enumerated or its script could not be read, in which case the entry
/// contributes nothing to this pass.
pub enum ServiceDef {
    Script { path: String, content: Vec<u8> },
    Skipped { path: String, cause: String },
}

/// What one pass observed of the service directory itself: its entries, or
/// the failure to list it, which aborts the pass.
pub enum Listing {
    Entries(Vec<ServiceDef>),
    Failed { dir: String, cause: String },
}

/// Why a pass, or one of its steps, failed.
#[derive(Debug)]
pub enum StepError {
    /// The service directory could not be listed; the pass is abandoned.
    ReadDir { dir: String, cause: String },
    /// One directory entry could not be enumerated; it is skipped.
    ReadDirEntry { dir: String, cause: String },
    /// One launch script could not be read; its entry is skipped.
    Shash { path: String, cause: String },
    /// One launch could not be started; it is retried on the next pass.
    Spawn { path: String, cause: String },
}

/// One tracked child process: the identity of the script it was launched
/// from, and its process id.
pub struct RunningEntry {
    pub hash: Shash,
    pub pid: i32,
}

/// What a tracked entry holds, mathematically.
pub ghost struct RunningView {
    pub hash: Seq<u8>,
    pub path: Seq<char>,
    pub pid: i32,
}

impl View for RunningEntry {
    type V = RunningView;

    open spec fn view(&self) -> RunningView {
        RunningView { hash: self.hash@.hash, path: self.hash@.path, pid: self.pid }
    }
}

impl Clone for RunningEntry {
    /// A copy carries the same identity and process id.
    fn clone(&self) -> (r: Self)
        ensures
            r@ == self@,
    {
        RunningEntry { hash: self.hash.clone(), pid: self.pid }
    }
}

/// The views of a sequence of tracked entries.
pub open spec fn running_views(rs: Seq<RunningEntry>) -> Seq<RunningView> {
    rs.map_values(|e: RunningEntry| e@)
}

/// The digests of a sequence of tracked entries.
pub open spec fn running_digests(vs: Seq<RunningView>) -> Seq<Seq<u8>> {
    vs.map_values(|v: RunningView| v.hash)
}

/// The fingerprints of a sequence of identities.
pub open spec fn shash_views(s: Seq<Shash>) -> Seq<ShashView> {
    s.map_values(|x: Shash| x@)
}

/// The digests of a sequence of fingerprints.
pub open spec fn view_digests(fs: Seq<ShashView>) -> Seq<Seq<u8>> {
    fs.map_values(|f: ShashView| f.hash)
}

/// No two entries carry the same digest.
pub open spec fn unique_digests(vs: Seq<RunningView>) -> bool {
    forall|i: int, j: int| 0 <= i < j < vs.len() ==> vs[i].hash != vs[j].hash
}

/// The identities a pass desires, given what it observed: one fingerprint per
/// readable script, in listing order; skipped entries contribute nothing.
pub open spec fn desired_of(es: Seq<ServiceDef>) -> Seq<ShashView>
    decreases es.len(),
{
    if es.len() == 0 {
        Seq::empty()
    } else {
        desired_of(es.drop_last()) + (match es.last() {
            ServiceDef::Script { path, content } => seq![fingerprint_of(path@, content@)],
            ServiceDef::Skipped { .. } => Seq::empty(),
        })
    }
}

/// The identities a pass must spawn: every desired identity whose digest is
/// not among the known (already tracked) ones, kept once at its first
/// occurrence.
pub open spec fn spawn_plan(known: Seq<Seq<u8>>, des: Seq<ShashView>) -> Seq<ShashView>
    decreases des.len(),
{
    if des.len() == 0 {
        Seq::empty()
    } else {
        let prev = spawn_plan(known, des.drop_last());
        let f = des.last();
        if !known.contains(f.hash) && !view_digests(prev).contains(f.hash) {
            prev.push(f)
        } else {
            prev
        }
    }
}

/// The tracked entries that a pass finds stale: those whose digest is not
/// among the desired ones, in tracking order.
pub open spec fn stale_of(vs: Seq<RunningView>, desired: Seq<Seq<u8>>) -> Seq<RunningView>
    decreases vs.len(),
{
    if vs.len() == 0 {
        Seq::empty()
    } else {
        let prev = stale_of(vs.drop_last(), desired);
        if desired.contains(vs.last().hash) {
            prev
        } else {
            prev.push(vs.last())
        }
    }
}

/// The tracked entries that remain after the processes with the given ids
/// have been reaped.
pub open spec fn after_exits(vs: Seq<RunningView>, exited: Seq<i32>) -> Seq<RunningView>
    decreases vs.len(),
{
    if vs.len() == 0 {
        Seq::empty()
    } else {
        let prev = after_exits(vs.drop_last(), exited);
        if exited.contains(vs.last().pid) {
            prev
        } else {
            prev.push(vs.last())
        }
    }
}

/// The first half of a pass, computed before anything is spawned: every
/// desired identity, and the ones that must be spawned because they are not
/// yet tracked.
#[derive(Debug)]
pub struct Plan {
    pub desired: Vec<Shash>,
    pub spawn: Vec<Shash>,
}

/// The reconciler: owns the map from script identity to the child process
/// launched for it, and computes, one pass at a time, what to spawn, what to
/// retire and what to forget.
pub struct Stepper {
    running: Vec<RunningEntry>,
}

impl Stepper {
    /// The tracked entries, mathematically.
    pub closed spec fn views(&self) -> Seq<RunningView> {
        running_views(self.running@)
    }

    /// The digests of the tracked entries.
    pub open spec fn digests(&self) -> Seq<Seq<u8>> {
        running_digests(self.views())
    }

    /// Whether a digest is tracked.
    pub open spec fn tracks(&self, d: Seq<u8>) -> bool {
        self.digests().contains(d)
    }

    /// At most one entry per digest, each with a full-size digest.
    pub open spec fn wf(&self) -> bool {
        &&& unique_digests(self.views())
        &&& forall|i: int| 0 <= i < self.views().len() ==> (#[trigger] self.views()[i]).hash.len()
            == 32
    }

    /// A fresh reconciler tracks nothing.
    pub fn new() -> (s: Stepper)
        ensures
            s.views() == Seq::<RunningView>::empty(),
            s.wf(),
    {
        let s = Stepper { running: Vec::new() };
        proof {
            assert(s.views() =~= Seq::<RunningView>::empty());
        }
        s
    }

    /// How many entries are tracked.
    pub fn len(&self) -> (n: usize)
        ensures
            n == self.views().len(),
    {
        self.running.len()
    }

    /// Computes the first half of a pass from what was observed of the
    /// service directory. A failed listing aborts the pass with an error and
    /// nothing else happens; otherwise every readable script is fingerprinted
    /// (skipped entries contribute nothing), and the identities that are not
    /// yet tracked make up the spawn list, each once.
    pub fn plan(&self, listing: &Listing) -> (r: Result<Plan, StepError>)
        requires
            self.wf(),
        ensures
            (*listing is Entries) == (r is Ok),
            *listing matches Listing::Failed { dir, cause } ==> (r matches Err(
                StepError::ReadDir { dir: d, cause: c },
            ) && d@ == dir@ && c@ == cause@),
            *listing matches Listing::Entries(es) ==> (r matches Ok(p) && shash_views(p.desired@)
                == desired_of(es@) && shash_views(p.spawn@) == spawn_plan(
                self.digests(),
                desired_of(es@),
            ) && (forall|i: int| 0 <= i < p.desired@.len() ==> (#[trigger] p.desired@[i]).wf()) && (
            forall|i: int| 0 <= i < p.spawn@.len() ==> (#[trigger] p.spawn@[i]).wf())),
    {
        match listing {
            Listing::Failed { dir, cause } => Err(
                StepError::ReadDir { dir: dir.clone(), cause: cause.clone() },
            ),
            Listing::Entries(es) => {
                let mut desired: Vec<Shash> = Vec::new();
                let mut i: usize = 0;
                while i < es.len()
                    invariant
                        i <= es@.len(),
                        shash_views(desired@) == desired_of(es@.subrange(0, i as int)),
                        forall|j: int| 0 <= j < desired@.len() ==> (#[trigger] desired@[j]).wf(),
                    decreases es@.len() - i,
                {
                    match &es[i] {
                        ServiceDef::Script { path, content } => {
                            let h = Shash::new(path.clone(), content);
                            desired.push(h);
                        },
                        ServiceDef::Skipped { .. } => {},
                    }
                    proof {
                        assert(es@.subrange(0, i + 1 as int).drop_last() =~= es@.subrange(
                            0,
                            i as int,
                        ));
                        assert(shash_views(desired@) =~= desired_of(es@.subrange(0, i + 1 as int)));
                    }
                    i = i + 1;
                }
                proof {
                    assert(es@.subrange(0, es@.len() as int) =~= es@);
                }
                let mut spawn: Vec<Shash> = Vec::new();
                let mut k: usize = 0;
                while k < desired.len()
                    invariant
                        k <= desired@.len(),
                        self.wf(),
                        shash_views(desired@) == desired_of(es@),
                        shash_views(spawn@) == spawn_plan(
                            self.digests(),
                            shash_views(desired@).subrange(0, k as int),
                        ),
                        forall|j: int| 0 <= j < desired@.len() ==> (#[trigger] desired@[j]).wf(),
                        forall|j: int| 0 <= j < spawn@.len() ==> (#[trigger] spawn@[j]).wf(),
                    decreases desired@.len() - k,
                {
                    let d = &desired[k];
                    if !self.contains(d) && !shash_vec_contains(&spawn, d) {
                        spawn.push(d.clone());
                    }
                    proof {
                        assert(shash_views(desired@).subrange(0, k + 1 as int).drop_last()
                            =~= shash_views(desired@).subrange(0, k as int));
                        assert(shash_views(desired@).subrange(0, k + 1 as int).last()
                            == desired@[k as int]@);
                        assert(shash_views(spawn@) =~= spawn_plan(
                            self.digests(),
                            shash_views(desired@).subrange(0, k + 1 as int),
                        ));
                    }
                    k = k + 1;
                }
                proof {
                    assert(shash_views(desired@).subrange(0, desired@.len() as int)
                        =~= shash_views(desired@));
                }
                Ok(Plan { desired, spawn })
            },
        }
    }

    /// Records one successful spawn: the identity becomes tracked, bound to
    /// the new process id; an identity that is already tracked is left as it
    /// was.
    pub fn record_spawn(&mut self, hash: Shash, pid: i32)
        requires
            old(self).wf(),
            hash.wf(),
        ensures
            final(self).wf(),
            old(self).tracks(hash@.hash) ==> final(self).views() == old(self).views(),
            !old(self).tracks(hash@.hash) ==> final(self).views() == old(self).views().push(
                RunningView { hash: hash@.hash, path: hash@.path, pid: pid },
            ),
    {
        let ghost pre = self.views();
        let ghost h = hash@;
        if !self.contains(&hash) {
            self.running.push(RunningEntry { hash, pid });
            proof {
                assert(self.views() =~= pre.push(RunningView { hash: h.hash, path: h.path, pid }));
                assert forall|a: int| 0 <= a < pre.len() implies pre[a].hash != h.hash by {
                    assert(running_digests(pre)[a] == pre[a].hash);
                }
            }
        }
    }

    /// The tracked entries that the given desired identities leave stale:
    /// every entry whose digest is desired by none of them. Their processes
    /// are the ones owed a termination signal.
    pub fn stale(&self, desired: &Vec<Shash>) -> (r: Vec<RunningEntry>)
        ensures
            running_views(r@) == stale_of(self.views(), view_digests(shash_views(desired@))),
    {
        let ghost des = view_digests(shash_views(desired@));
        let mut r: Vec<RunningEntry> = Vec::new();
        let mut i: usize = 0;
        while i < self.running.len()
            invariant
                i <= self.views().len(),
                running_views(r@) == stale_of(self.views().subrange(0, i as int), des),
                des == view_digests(shash_views(desired@)),
            decreases self.views().len() - i,
        {
            if !shash_vec_contains(desired, &self.running[i].hash) {
                r.push(self.running[i].clone());
            }
            proof {
                assert(self.views().subrange(0, i + 1 as int).drop_last() =~= self.views().subrange(
                    0,
                    i as int,
                ));
                assert(self.views().subrange(0, i + 1 as int).last() == self.views()[i as int]);
                assert(running_views(r@) =~= stale_of(
                    self.views().subrange(0, i + 1 as int),
                    des,
                ));
            }
            i = i + 1;
        }
        proof {
            assert(self.views().subrange(0, self.views().len() as int) =~= self.views());
        }
        r
    }

    /// Forgets every tracked entry whose process has been confirmed exited;
    /// all others, including those whose exit check failed, stay tracked.
    pub fn remove_exited(&mut self, exited: &Vec<i32>)
        requires
            old(self).wf(),
        ensures
            final(self).wf(),
            final(self).views() == after_exits(old(self).views(), exited@),
    {
        let ghost pre = self.views();
        let mut kept: Vec<RunningEntry> = Vec::new();
        let mut i: usize = 0;
        while i < self.running.len()
            invariant
                i <= pre.len(),
                pre == self.views(),
                running_views(kept@) == after_exits(pre.subrange(0, i as int), exited@),
            decreases pre.len() - i,
        {
            if !i32_vec_contains(exited, self.running[i].pid) {
                kept.push(self.running[i].clone());
            }
            proof {
                assert(pre.subrange(0, i + 1 as int).drop_last() =~= pre.subrange(0, i as int));
                assert(pre.subrange(0, i + 1 as int).last() == pre[i as int]);
                assert(running_views(kept@) =~= after_exits(pre.subrange(0, i + 1 as int), exited@));
            }
            i = i + 1;
        }
        proof {
            assert(pre.subrange(0, pre.len() as int) =~= pre);
        }
        self.running = kept;
        proof {
            lemma_after_exits_entries(pre, exited@);
        }
    }

    /// The process ids of the tracked entries, in tracking order.
    pub fn pids(&self) -> (r: Vec<i32>)
        ensures
            r@ == running_pids(self.views()),
    {
        let mut r: Vec<i32> = Vec::new();
        let mut i: usize = 0;
        while i < self.running.len()
            invariant
                i <= self.views().len(),
                r@ == running_pids(self.views()).subrange(0, i as int),
            decreases self.views().len() - i,
        {
            r.push(self.running[i].pid);
            proof {
                assert(r@ =~= running_pids(self.views()).subrange(0, i + 1 as int));
            }
            i = i + 1;
        }
        proof {
            assert(running_pids(self.views()).subrange(0, self.views().len() as int)
                =~= running_pids(self.views()));
        }
        r
    }

    /// Whether the identity of `hash` is tracked.
    pub fn contains(&self, hash: &Shash) -> (r: bool)
        ensures
            r == self.tracks(hash@.hash),
    {
        let mut i: usize = 0;
        while i < self.running.len()
            invariant
                i <= self.views().len(),
                forall|j: int| 0 <= j < i ==> self.views()[j].hash != hash@.hash,
            decreases self.views().len() - i,
        {
            if self.running[i].hash.digest_eq(hash) {
                proof {
                    assert(self.digests()[i as int] == hash@.hash);
                }
                return true;
            }
            i = i + 1;
        }
        proof {
            assert(forall|j: int|
                0 <= j < self.digests().len() ==> self.digests()[j] != hash@.hash);
        }
        false
    }
}

/// The process ids of a sequence of tracked entries.
pub open spec fn running_pids(vs: Seq<RunningView>) -> Seq<i32> {
    vs.map_values(|v: RunningView| v.pid)
}

/// Whether `v` holds `x`.
fn i32_vec_contains(v: &Vec<i32>, x: i32) -> (r: bool)
    ensures
        r == v@.contains(x),
{
    let mut i: usize = 0;
    while i < v.len()
        invariant
            i <= v@.len(),
            forall|j: int| 0 <= j < i ==> v@[j] != x,
        decreases v@.len() - i,
    {
        if v[i] == x {
            return true;
        }
        i = i + 1;
    }
    false
}

/// What survives a reap keeps everything the tracked entries promised: each
/// kept entry is one of the old ones, no two kept entries share a digest, and
/// every kept digest is full size.
proof fn lemma_after_exits_entries(vs: Seq<RunningView>, exited: Seq<i32>)
    requires
        unique_digests(vs),
        forall|i: int| 0 <= i < vs.len() ==> (#[trigger] vs[i]).hash.len() == 32,
    ensures
        forall|k: int|
            0 <= k < after_exits(vs, exited).len() ==> vs.contains(
                #[trigger] after_exits(vs, exited)[k],
            ),
        unique_digests(after_exits(vs, exited)),
        forall|k: int|
            0 <= k < after_exits(vs, exited).len() ==> (#[trigger] after_exits(vs, exited)[k]).hash.len()
                == 32,
    decreases vs.len(),
{
    if vs.len() == 0 {
    } else {
        let prev = after_exits(vs.drop_last(), exited);
        lemma_after_exits_entries(vs.drop_last(), exited);
        assert forall|k: int| 0 <= k < prev.len() implies vs.contains(#[trigger] prev[k]) by {
            let m = choose|m: int| 0 <= m < vs.drop_last().len() && vs.drop_last()[m] == prev[k];
            assert(vs[m] == prev[k]);
        }
        if !exited.contains(vs.last().pid) {
            assert(vs.contains(vs.last())) by {
                assert(vs[vs.len() - 1] == vs.last());
            }
            assert forall|a: int, b: int|
                0 <= a < b < after_exits(vs, exited).len() implies after_exits(vs, exited)[a].hash
                != after_exits(vs, exited)[b].hash by {
                if b == after_exits(vs, exited).len() - 1 {
                    let m = choose|m: int|
                        0 <= m < vs.drop_last().len() && vs.drop_last()[m] == prev[a];
                    assert(vs[m] == prev[a]);
                    assert(vs[m].hash != vs[vs.len() - 1].hash);
                }
            }
        }
    }
}

/// Every desired identity ends a pass accounted for: its digest was either
/// already known, or the pass plans its spawn.
proof fn lemma_spawn_plan_covers(known: Seq<Seq<u8>>, des: Seq<ShashView>)
    ensures
        forall|k: int|
            0 <= k < des.len() ==> known.contains(#[trigger] des[k].hash) || view_digests(
                spawn_plan(known, des),
            ).contains(des[k].hash),
    decreases des.len(),
{
    if des.len() == 0 {
    } else {
        lemma_spawn_plan_covers(known, des.drop_last());
        let prev = spawn_plan(known, des.drop_last());
        let cur = spawn_plan(known, des);
        assert forall|k: int|
            0 <= k < des.len() implies known.contains(#[trigger] des[k].hash) || view_digests(
            cur,
        ).contains(des[k].hash) by {
            if k < des.len() - 1 {
                assert(des.drop_last()[k] == des[k]);
                assert(known.contains(des.drop_last()[k].hash) || view_digests(prev).contains(
                    des.drop_last()[k].hash,
                ));
                if !known.contains(des[k].hash) {
                    let m = choose|m: int|
                        0 <= m < view_digests(prev).len() && view_digests(prev)[m] == des[k].hash;
                    assert(view_digests(prev)[m] == prev[m].hash);
                    assert(cur[m] == prev[m]);
                    assert(view_digests(cur)[m] == des[k].hash);
                }
            } else {
                if !known.contains(des[k].hash) {
                    if view_digests(prev).contains(des[k].hash) {
                        let m = choose|m: int|
                            0 <= m < view_digests(prev).len() && view_digests(prev)[m]
                                == des[k].hash;
                        assert(view_digests(cur)[m] == des[k].hash);
                    } else {
                        assert(cur == prev.push(des.last()));
                        assert(view_digests(cur)[cur.len() - 1] == des[k].hash);
                    }
                }
            }
        }
    }
}

/// A pass whose desired digests are all known plans no spawn at all.
proof fn lemma_spawn_plan_all_known(known: Seq<Seq<u8>>, des: Seq<ShashView>)
    requires
        forall|k: int| 0 <= k < des.len() ==> known.contains(#[trigger] des[k].hash),
    ensures
        spawn_plan(known, des).len() == 0,
    decreases des.len(),
{
    if des.len() == 0 {
    } else {
        lemma_spawn_plan_all_known(known, des.drop_last());
    }
}

/// A second pass over an unchanged listing is idempotent: once the first
/// pass's planned spawns are all recorded, the same desired identities plan
/// nothing new.
pub proof fn lemma_pass_idempotent(known: Seq<Seq<u8>>, des: Seq<ShashView>)
    ensures
        spawn_plan(known + view_digests(spawn_plan(known, des)), des).len() == 0,
{
    lemma_spawn_plan_covers(known, des);
    let t2 = known + view_digests(spawn_plan(known, des));
    assert forall|k: int| 0 <= k < des.len() implies t2.contains(#[trigger] des[k].hash) by {
        if known.contains(des[k].hash) {
            let m = choose|m: int| 0 <= m < known.len() && known[m] == des[k].hash;
            assert(t2[m] == des[k].hash);
        } else {
            let d = view_digests(spawn_plan(known, des));
            let m = choose|m: int| 0 <= m < d.len() && d[m] == des[k].hash;
            assert(t2[known.len() + m] == des[k].hash);
        }
    }
    lemma_spawn_plan_all_known(t2, des);
}

/// A pass that confirms no exit forgets nothing: the tracked entries come
/// through a reap of an empty exit list unchanged.
pub proof fn lemma_no_exits_no_change(vs: Seq<RunningView>)
    ensures
        after_exits(vs, Seq::empty()) == vs,
    decreases vs.len(),
{
    if vs.len() == 0 {
        assert(after_exits(vs, Seq::empty()) =~= vs);
    } else {
        lemma_no_exits_no_change(vs.drop_last());
        assert(after_exits(vs, Seq::empty()) =~= vs);
    }
}

/// A pass over a listing with exactly one identity that is not yet known
/// plans exactly that one spawn.
pub proof fn lemma_new_entry(known: Seq<Seq<u8>>, des: Seq<ShashView>, k: int)
    requires
        0 <= k < des.len(),
        !known.contains(des[k].hash),
        forall|j: int| 0 <= j < des.len() && j != k ==> known.contains(#[trigger] des[j].hash),
    ensures
        spawn_plan(known, des) == seq![des[k]],
    decreases des.len(),
{
    if k == des.len() - 1 {
        lemma_spawn_plan_all_known(known, des.drop_last());
        assert(spawn_plan(known, des) =~= seq![des[k]]);
    } else {
        lemma_new_entry(known, des.drop_last(), k);
    }
}

/// A tracked entry whose digest no desired identity carries is reported
/// stale.
proof fn lemma_stale_of_contains(vs: Seq<RunningView>, desired: Seq<Seq<u8>>, k: int)
    requires
        0 <= k < vs.len(),
        !desired.contains(vs[k].hash),
    ensures
        stale_of(vs, desired).contains(vs[k]),
    decreases vs.len(),
{
    if k == vs.len() - 1 {
        let r = stale_of(vs, desired);
        assert(r[r.len() - 1] == vs[k]);
    } else {
        lemma_stale_of_contains(vs.drop_last(), desired, k);
        let prev = stale_of(vs.drop_last(), desired);
        let m = choose|m: int| 0 <= m < prev.len() && prev[m] == vs.drop_last()[k];
        assert(stale_of(vs, desired)[m] == vs[k]);
    }
}

/// After a reap, no surviving entry carries a digest whose every bearer was
/// confirmed exited.
proof fn lemma_after_exits_no_digest(vs: Seq<RunningView>, exited: Seq<i32>, d: Seq<u8>)
    requires
        forall|i: int|
            0 <= i < vs.len() && (#[trigger] vs[i]).hash == d ==> exited.contains(vs[i].pid),
    ensures
        !running_digests(after_exits(vs, exited)).contains(d),
    decreases vs.len(),
{
    if vs.len() == 0 {
    } else {
        lemma_after_exits_no_digest(vs.drop_last(), exited, d);
        let prev = after_exits(vs.drop_last(), exited);
        if !exited.contains(vs.last().pid) {
            assert(vs.last().hash != d) by {
                assert(vs[vs.len() - 1] == vs.last());
            }
            assert forall|m: int|
                0 <= m < running_digests(prev.push(vs.last())).len() implies running_digests(
                prev.push(vs.last()),
            )[m] != d by {
                if m < prev.len() {
                    assert(running_digests(prev)[m] == prev[m].hash);
                }
            }
        }
    }
}

/// A tracked identity that is no longer desired is reported stale, and once
/// its process has exited and been reaped, no tracked entry carries its
/// digest any more.
pub proof fn lemma_stale_removed(vs: Seq<RunningView>, desired: Seq<Seq<u8>>, k: int)
    requires
        unique_digests(vs),
        0 <= k < vs.len(),
        !desired.contains(vs[k].hash),
    ensures
        stale_of(vs, desired).contains(vs[k]),
        !running_digests(after_exits(vs, seq![vs[k].pid])).contains(vs[k].hash),
{
    lemma_stale_of_contains(vs, desired, k);
    assert forall|i: int|
        0 <= i < vs.len() && (#[trigger] vs[i]).hash == vs[k].hash implies seq![vs[k].pid].contains(
        vs[i].pid,
    ) by {
        assert(i == k);
        assert(seq![vs[k].pid][0] == vs[k].pid);
    }
    lemma_after_exits_no_digest(vs, seq![vs[k].pid], vs[k].hash);
}

/// An entry that could not be read contributes nothing to a pass: the
/// desired identities of a listing with a skipped entry are exactly those of
/// the listing without it.
pub proof fn lemma_skipped_contributes_nothing(
    before: Seq<ServiceDef>,
    skipped: ServiceDef,
    after: Seq<ServiceDef>,
)
    requires
        skipped is Skipped,
    ensures
        desired_of(before + seq![skipped] + after) == desired_of(before + after),
    decreases after.len(),
{
    if after.len() == 0 {
        let s1 = before + seq![skipped] + after;
        assert(s1.last() == skipped);
        assert(s1.drop_last() =~= before);
        assert(desired_of(s1) =~= desired_of(before));
        assert(before + after =~= before);
    } else {
        lemma_skipped_contributes_nothing(before, skipped, after.drop_last());
        let s1 = before + seq![skipped] + after;
        let s2 = before + after;
        assert(s1.drop_last() =~= before + seq![skipped] + after.drop_last());
        assert(s2.drop_last() =~= before + after.drop_last());
        assert(s1.last() == after.last());
        assert(s2.last() == after.last());
        assert(desired_of(s1) =~= desired_of(s2));
    }
}

/// Whether some identity in `v` carries the digest of `hash`.
fn shash_vec_contains(v: &Vec<Shash>, hash: &Shash) -> (r: bool)
    ensures
        r == view_digests(shash_views(v@)).contains(hash@.hash),
{
    let mut i: usize = 0;
    while i < v.len()
        invariant
            i <= v@.len(),
            forall|j: int| 0 <= j < i ==> (#[trigger] v@[j])@.hash != hash@.hash,
        decreases v@.len() - i,
    {
        if v[i].digest_eq(hash) {
            proof {
                assert(view_digests(shash_views(v@))[i as int] == hash@.hash);
            }
            return true;
        }
        i = i + 1;
    }
    proof {
        assert(forall|j: int|
            0 <= j < v@.len() ==> #[trigger] view_digests(shash_views(v@))[j] != hash@.hash);
    }
    false
}

} // verus!
