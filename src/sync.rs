//! The local mirror of the inventory kept by the edge proxy: rows, a queue
//! of local mutations waiting for upstream, and the decisions of the
//! reconciliation tick.

use vstd::prelude::*;
use crate::text::{decimal, decimal_of, lower_of, lowercase};
use crate::validation::AppError;

verus! {

broadcast use vstd::seq_lib::group_seq_properties;

/// A queue entry stops being retried after this many failures.
pub const MAX_RETRIES: i32 = 3;

/// Queue entries replayed per tick.
pub const SYNC_BATCH_SIZE: usize = 50;

/// Synced queue entries kept for inspection after a tick.
pub const SYNCED_KEPT: usize = 1000;

/// An inventory row as the mirror stores it.
pub struct Resto {
    pub id: i64,
    pub width_mm: i64,
    pub height_mm: i64,
    pub thickness_mm: i64,
    pub material: String,
    pub notes: Option<String>,
    pub created_at: String,
}

impl Resto {
    pub fn copy(&self) -> (r: Resto)
        ensures
            r == *self,
    {
        Resto {
            id: self.id,
            width_mm: self.width_mm,
            height_mm: self.height_mm,
            thickness_mm: self.thickness_mm,
            material: self.material.clone(),
            notes: match &self.notes {
                Some(n) => Some(n.clone()),
                None => None,
            },
            created_at: self.created_at.clone(),
        }
    }

    pub open spec fn with_id(self, id: i64) -> Resto {
        Resto { id, ..self }
    }
}

/// The kinds of local mutation that are replayed upstream.
#[derive(Clone, Copy, PartialEq, Eq, Structural)]
pub enum SyncOperation {
    Insert,
    Delete,
}

pub open spec fn operation_of(s: Seq<char>) -> Option<SyncOperation> {
    if s == "INSERT"@ {
        Some(SyncOperation::Insert)
    } else if s == "DELETE"@ {
        Some(SyncOperation::Delete)
    } else {
        None
    }
}

impl SyncOperation {
    pub open spec fn spec_name(self) -> Seq<char> {
        match self {
            SyncOperation::Insert => "INSERT"@,
            SyncOperation::Delete => "DELETE"@,
        }
    }

    /// The name stored in the queue.
    pub fn name(&self) -> (r: String)
        ensures
            r@ == self.spec_name(),
    {
        match self {
            SyncOperation::Insert => "INSERT".to_string(),
            SyncOperation::Delete => "DELETE".to_string(),
        }
    }

    /// Reads a stored name; other names are not replayed.
    pub fn parse(s: &String) -> (r: Option<SyncOperation>)
        ensures
            r == operation_of(s@),
    {
        if *s == "INSERT".to_string() {
            Some(SyncOperation::Insert)
        } else if *s == "DELETE".to_string() {
            Some(SyncOperation::Delete)
        } else {
            None
        }
    }
}

/// A local mutation waiting for upstream.
pub struct SyncQueueItem {
    pub id: i64,
    pub operation: String,
    pub resto_id: i64,
    pub payload: Option<String>,
    pub timestamp: String,
    pub synced: bool,
    pub retry_count: i32,
    pub last_error: Option<String>,
}

/// An entry is replayed while it is not synced and has failed fewer than
/// `MAX_RETRIES` times.
pub open spec fn is_pending(e: SyncQueueItem) -> bool {
    !e.synced && e.retry_count < MAX_RETRIES
}

/// The indices below `n` of the pending entries, in queue order.
pub open spec fn pending_upto(q: Seq<SyncQueueItem>, n: int) -> Seq<usize>
    decreases n,
{
    if n <= 0 {
        Seq::empty()
    } else if is_pending(q[n - 1]) {
        pending_upto(q, n - 1).push((n - 1) as usize)
    } else {
        pending_upto(q, n - 1)
    }
}

/// The entries a tick replays: the first `SYNC_BATCH_SIZE` pending ones.
pub open spec fn selected(q: Seq<SyncQueueItem>) -> Seq<usize> {
    let s = pending_upto(q, q.len() as int);
    if s.len() <= SYNC_BATCH_SIZE { s } else { s.subrange(0, SYNC_BATCH_SIZE as int) }
}

proof fn lemma_pending_upto_prefix(q: Seq<SyncQueueItem>, i: int, n: int)
    requires
        0 <= i <= n,
    ensures
        pending_upto(q, i).len() <= pending_upto(q, n).len(),
        pending_upto(q, n).subrange(0, pending_upto(q, i).len() as int) == pending_upto(q, i),
    decreases n - i,
{
    if i < n {
        lemma_pending_upto_prefix(q, i, n - 1);
        let a = pending_upto(q, i);
        let b = pending_upto(q, n - 1);
        assert(pending_upto(q, n).subrange(0, a.len() as int) =~= b.subrange(0, a.len() as int));
    } else {
        assert(pending_upto(q, n).subrange(0, pending_upto(q, n).len() as int) =~= pending_upto(q, n));
    }
}

/// The entry after a failed replay: one more failure, and its error kept.
pub open spec fn after_failure(e: SyncQueueItem, error: String) -> SyncQueueItem {
    SyncQueueItem { retry_count: (e.retry_count + 1) as i32, last_error: Some(error), ..e }
}

pub open spec fn after_success(e: SyncQueueItem) -> SyncQueueItem {
    SyncQueueItem { synced: true, ..e }
}

/// The local mirror: rows with distinct ids below `next_resto_id`, and the
/// queue with ids below `next_queue_id`.
pub struct LocalStore {
    pub restos: Vec<Resto>,
    pub queue: Vec<SyncQueueItem>,
    pub next_resto_id: i64,
    pub next_queue_id: i64,
    pub last_sync_time: Option<String>,
    pub last_cache_warm: Option<String>,
}

pub open spec fn ids_distinct(rows: Seq<Resto>) -> bool {
    forall|i: int, j: int| 0 <= i < rows.len() && 0 <= j < rows.len() && i != j ==> (#[trigger] rows[i]).id != (#[trigger] rows[j]).id
}

pub open spec fn has_row(rows: Seq<Resto>, id: i64) -> bool {
    exists|i: int| 0 <= i < rows.len() && (#[trigger] rows[i]).id == id
}

impl LocalStore {
    pub open spec fn wf(&self) -> bool {
        &&& ids_distinct(self.restos@)
        &&& forall|i: int| 0 <= i < self.restos@.len() ==> (#[trigger] self.restos@[i]).id < self.next_resto_id
        &&& forall|i: int| 0 <= i < self.queue@.len() ==> (#[trigger] self.queue@[i]).id < self.next_queue_id
        &&& 1 <= self.next_resto_id
        &&& 1 <= self.next_queue_id
    }

    pub fn new() -> (s: LocalStore)
        ensures
            s.wf(),
            s.restos@.len() == 0,
            s.queue@.len() == 0,
    {
        LocalStore {
            restos: Vec::new(),
            queue: Vec::new(),
            next_resto_id: 1,
            next_queue_id: 1,
            last_sync_time: None,
            last_cache_warm: None,
        }
    }

    /// Records a local mutation: an unsynced entry with a fresh id.
    pub fn enqueue(&mut self, op: SyncOperation, resto_id: i64, now: String)
        requires
            old(self).wf(),
            old(self).next_queue_id < i64::MAX,
        ensures
            final(self).wf(),
            final(self).restos@ == old(self).restos@,
            final(self).next_resto_id == old(self).next_resto_id,
            final(self).next_queue_id == old(self).next_queue_id + 1,
            final(self).queue@ == old(self).queue@.push(SyncQueueItem {
                id: old(self).next_queue_id,
                operation: final(self).queue@.last().operation,
                resto_id,
                payload: None,
                timestamp: now,
                synced: false,
                retry_count: 0,
                last_error: None,
            }),
            final(self).queue@.last().operation@ == op.spec_name(),
    {
        let entry = SyncQueueItem {
            id: self.next_queue_id,
            operation: op.name(),
            resto_id,
            payload: None,
            timestamp: now,
            synced: false,
            retry_count: 0,
            last_error: None,
        };
        self.queue.push(entry);
        self.next_queue_id = self.next_queue_id + 1;
    }

    /// Adds a row while upstream is unreachable: a locally issued id, and an
    /// INSERT entry in the queue. Returns the new row.
    pub fn add_offline(
        &mut self,
        width_mm: i64,
        height_mm: i64,
        thickness_mm: i64,
        material: String,
        notes: Option<String>,
        now: String,
    ) -> (r: Resto)
        requires
            old(self).wf(),
            old(self).next_resto_id < i64::MAX,
            old(self).next_queue_id < i64::MAX,
        ensures
            final(self).wf(),
            r.id == old(self).next_resto_id,
            r.width_mm == width_mm && r.height_mm == height_mm && r.thickness_mm == thickness_mm,
            r.material == material && r.notes == notes && r.created_at == now,
            final(self).restos@ == old(self).restos@.push(r),
            final(self).queue@.len() == old(self).queue@.len() + 1,
            final(self).queue@.subrange(0, old(self).queue@.len() as int) == old(self).queue@,
            ({
                let e = final(self).queue@.last();
                &&& e.id == old(self).next_queue_id
                &&& operation_of(e.operation@) == Some(SyncOperation::Insert)
                &&& e.resto_id == r.id
                &&& !e.synced
                &&& e.retry_count == 0
                &&& e.timestamp == now
            }),
    {
        let row = Resto {
            id: self.next_resto_id,
            width_mm,
            height_mm,
            thickness_mm,
            material,
            notes,
            created_at: now.clone(),
        };
        let result = row.copy();
        self.restos.push(row);
        self.next_resto_id = self.next_resto_id + 1;
        let ghost mid = self.queue@;
        self.enqueue(SyncOperation::Insert, result.id, now);
        proof {
            reveal_strlit("INSERT");
            reveal_strlit("DELETE");
            assert(self.queue@.subrange(0, mid.len() as int) =~= mid);
        }
        result
    }
}

pub open spec fn rows_without(rows: Seq<Resto>, id: i64) -> Seq<Resto> {
    rows.filter(|x: Resto| x.id != id)
}

/// The rows after an INSERT OR REPLACE of `r`.
pub open spec fn rows_saving(rows: Seq<Resto>, r: Resto) -> Seq<Resto> {
    rows_without(rows, r.id).push(r)
}

/// The rows after their primary key `from` is rewritten to `to`.
pub open spec fn rows_renamed(rows: Seq<Resto>, from: i64, to: i64) -> Seq<Resto> {
    rows.map_values(|x: Resto| if x.id == from { x.with_id(to) } else { x })
}

fn filter_rows(rows: &Vec<Resto>, id: i64) -> (r: Vec<Resto>)
    ensures
        r@ == rows_without(rows@, id),
{
    let mut r: Vec<Resto> = Vec::new();
    let mut i: usize = 0;
    while i < rows.len()
        invariant
            i <= rows@.len(),
            r@ == rows_without(rows@.subrange(0, i as int), id),
        decreases rows.len() - i,
    {
        proof {
            let pre = rows@.subrange(0, i as int);
            assert(rows@.subrange(0, i + 1) =~= pre.push(rows@[i as int]));
            pre.lemma_filter_push(rows@[i as int], |x: Resto| x.id != id);
        }
        if rows[i].id != id {
            r.push(rows[i].copy());
        }
        i += 1;
    }
    assert(rows@.subrange(0, i as int) =~= rows@);
    r
}

fn rename_rows(rows: &Vec<Resto>, from: i64, to: i64) -> (r: Vec<Resto>)
    ensures
        r@ == rows_renamed(rows@, from, to),
{
    let mut r: Vec<Resto> = Vec::new();
    let mut i: usize = 0;
    while i < rows.len()
        invariant
            i <= rows@.len(),
            r@ == rows_renamed(rows@.subrange(0, i as int), from, to),
        decreases rows.len() - i,
    {
        let mut row = rows[i].copy();
        if row.id == from {
            row.id = to;
        }
        r.push(row);
        i += 1;
        assert(r@ =~= rows_renamed(rows@.subrange(0, i as int), from, to));
    }
    assert(rows@.subrange(0, i as int) =~= rows@);
    r
}

fn find_row(rows: &Vec<Resto>, id: i64) -> (r: Option<usize>)
    ensures
        r matches Some(i) ==> i < rows@.len() && rows@[i as int].id == id,
        r is None <==> !has_row(rows@, id),
{
    let mut i: usize = 0;
    while i < rows.len()
        invariant
            i <= rows@.len(),
            forall|t: int| 0 <= t < i ==> (#[trigger] rows@[t]).id != id,
        decreases rows.len() - i,
    {
        if rows[i].id == id {
            return Some(i);
        }
        i += 1;
    }
    None
}

proof fn lemma_without_keeps_distinct(rows: Seq<Resto>, id: i64, bound: i64)
    requires
        ids_distinct(rows),
        forall|i: int| 0 <= i < rows.len() ==> (#[trigger] rows[i]).id < bound,
    ensures
        ids_distinct(rows_without(rows, id)),
        forall|i: int| 0 <= i < rows_without(rows, id).len() ==> (#[trigger] rows_without(rows, id)[i]).id < bound,
        forall|i: int| 0 <= i < rows_without(rows, id).len() ==> (#[trigger] rows_without(rows, id)[i]).id != id,
        !has_row(rows, id) ==> rows_without(rows, id) == rows,
        has_row(rows, id) ==> rows_without(rows, id).len() == rows.len() - 1,
    decreases rows.len(),
{
    let pred = |x: Resto| x.id != id;
    let f = rows.filter(pred);
    if rows.len() > 0 {
        let pre = rows.drop_last();
        assert(rows =~= pre.push(rows.last()));
        lemma_without_keeps_distinct(pre, id, bound);
        pre.lemma_filter_push(rows.last(), pred);
        let fp = pre.filter(pred);
        if has_row(pre, id) {
            let k = choose|k: int| 0 <= k < pre.len() && pre[k].id == id;
            assert(rows[k].id == id);
        }
        if has_row(rows, id) && !has_row(pre, id) {
            let k = choose|k: int| 0 <= k < rows.len() && rows[k].id == id;
            assert(k == rows.len() - 1);
        }
        assert forall|i: int| 0 <= i < f.len() implies (#[trigger] f[i]).id < bound && f[i].id != id by {
            if i == fp.len() {
            } else {
            }
        }
        assert forall|i: int, j: int| 0 <= i < f.len() && 0 <= j < f.len() && i != j implies (#[trigger] f[i]).id != (#[trigger] f[j]).id by {
            if pred(rows.last()) {
                if i == fp.len() || j == fp.len() {
                    let o = if i == fp.len() { j } else { i };
                    assert(fp.contains(f[o]));
                    pre.lemma_filter_contains_rev(pred, f[o]);
                    let k = choose|k: int| 0 <= k < pre.len() && pre[k] == f[o];
                    assert(rows[k] == pre[k]);
                    assert(rows[rows.len() - 1] == rows.last());
                }
            }
        }
        assert(f.len() <= rows.len()) by {
            rows.lemma_filter_len(pred);
        }
        if !has_row(rows, id) {
            assert(!has_row(pre, id));
        }
    } else {
        reveal(Seq::filter);
    }
}

/// What upstream answered to one replayed entry.
pub enum UpstreamReply {
    /// The request did not complete; the transport's error text.
    Unreachable(String),
    /// A response without a usable body: its HTTP status.
    Status(u16),
    /// A successful insert whose body named the id upstream assigned.
    Created(i64),
}

/// How a replayed entry ended.
pub enum SyncOutcome {
    /// Accepted; nothing to change locally.
    Done,
    /// Accepted; the local row must take the id upstream assigned.
    Renamed(i64),
    /// Refused or unreachable, with the error text.
    Failed(String),
}

pub open spec fn status_success(code: u16) -> bool {
    200 <= code <= 299
}

pub const NOT_FOUND: u16 = 404;

/// The call that replaying an entry makes.
pub enum SyncCall {
    /// POST the local row upstream.
    Insert(Resto),
    /// DELETE the row upstream by its local id.
    Delete(i64),
    /// Nothing to send: the row to insert is gone, or the operation is
    /// unknown; the entry counts as done.
    Skip,
}

impl LocalStore {
    /// INSERT OR REPLACE of a row that upstream holds.
    pub fn save_row(&mut self, r: Resto)
        requires
            old(self).wf(),
            r.id < i64::MAX,
        ensures
            final(self).wf(),
            final(self).restos@ == rows_saving(old(self).restos@, r),
            final(self).queue@ == old(self).queue@,
    {
        proof {
            lemma_without_keeps_distinct(self.restos@, r.id, self.next_resto_id);
        }
        let mut rows = filter_rows(&self.restos, r.id);
        if r.id >= self.next_resto_id {
            self.next_resto_id = r.id + 1;
        }
        rows.push(r);
        self.restos = rows;
    }

    /// Deletes the row with `id`; says whether there was one.
    pub fn delete_row(&mut self, id: i64) -> (deleted: bool)
        requires
            old(self).wf(),
        ensures
            final(self).wf(),
            deleted == has_row(old(self).restos@, id),
            final(self).restos@ == rows_without(old(self).restos@, id),
            final(self).queue@ == old(self).queue@,
            final(self).next_queue_id == old(self).next_queue_id,
    {
        proof {
            lemma_without_keeps_distinct(self.restos@, id, self.next_resto_id);
        }
        let found = find_row(&self.restos, id);
        self.restos = filter_rows(&self.restos, id);
        found.is_some()
    }

    /// The local part of a removal. When upstream accepted it, the row goes;
    /// otherwise it goes too, and a DELETE waits in the queue, or the
    /// removal fails with NotFound when there was no such row.
    pub fn remove(&mut self, id: i64, upstream_ok: bool, now: String) -> (r: Result<(), AppError>)
        requires
            old(self).wf(),
            old(self).next_queue_id < i64::MAX,
        ensures
            final(self).wf(),
            final(self).restos@ == rows_without(old(self).restos@, id),
            r is Err <==> !upstream_ok && !has_row(old(self).restos@, id),
            r matches Err(e) ==> e is NotFound,
            upstream_ok || r is Err ==> final(self).queue@ == old(self).queue@,
            !upstream_ok && r is Ok ==> final(self).queue@.len() == old(self).queue@.len() + 1
                && final(self).queue@.subrange(0, old(self).queue@.len() as int) == old(self).queue@
                && operation_of(final(self).queue@.last().operation@) == Some(SyncOperation::Delete)
                && final(self).queue@.last().resto_id == id
                && !final(self).queue@.last().synced
                && final(self).queue@.last().retry_count == 0,
    {
        let deleted = self.delete_row(id);
        if upstream_ok {
            return Ok(());
        }
        if !deleted {
            return Err(AppError::NotFound("No resto with that id".to_string()));
        }
        let ghost mid = self.queue@;
        self.enqueue(SyncOperation::Delete, id, now);
        proof {
            reveal_strlit("INSERT");
            reveal_strlit("DELETE");
            assert("DELETE"@[0] != "INSERT"@[0]);
            assert(self.queue@.subrange(0, mid.len() as int) =~= mid);
        }
        Ok(())
    }

    /// The entries to replay this tick: the first `SYNC_BATCH_SIZE` pending
    /// ones, oldest first (the queue is kept in the order its entries were
    /// made).
    pub fn pending(&self) -> (r: Vec<usize>)
        ensures
            r@ == selected(self.queue@),
            r@.len() <= SYNC_BATCH_SIZE,
            forall|t: int| 0 <= t < r@.len() ==> (#[trigger] r@[t]) < self.queue@.len() && is_pending(self.queue@[r@[t] as int]),
            forall|a: int, b: int| 0 <= a < b < r@.len() ==> (#[trigger] r@[a]) < (#[trigger] r@[b]),
            forall|i: int| 0 <= i < self.queue@.len() && is_pending(#[trigger] self.queue@[i]) && !r@.contains(i as usize)
                ==> r@.len() == SYNC_BATCH_SIZE && i > r@.last(),
    {
        let mut r: Vec<usize> = Vec::new();
        let mut i: usize = 0;
        while i < self.queue.len() && r.len() < SYNC_BATCH_SIZE
            invariant
                i <= self.queue@.len(),
                r@.len() <= SYNC_BATCH_SIZE,
                forall|t: int| 0 <= t < r@.len() ==> (#[trigger] r@[t]) < i && is_pending(self.queue@[r@[t] as int]),
                forall|a: int, b: int| 0 <= a < b < r@.len() ==> (#[trigger] r@[a]) < (#[trigger] r@[b]),
                forall|k: int| 0 <= k < i && is_pending(#[trigger] self.queue@[k]) ==> r@.contains(k as usize),
                r@ == pending_upto(self.queue@, i as int),
            decreases self.queue.len() - i,
        {
            let e = &self.queue[i];
            if !e.synced && e.retry_count < MAX_RETRIES {
                let ghost before = r@;
                r.push(i);
                assert forall|k: int| 0 <= k < i + 1 && is_pending(#[trigger] self.queue@[k]) implies r@.contains(k as usize) by {
                    if k < i {
                        let t = choose|t: int| 0 <= t < before.len() && before[t] == k as usize;
                        assert(r@[t] == before[t]);
                    } else {
                        assert(r@[r@.len() - 1] == i);
                    }
                }
            }
            i += 1;
        }
        proof {
            lemma_pending_upto_prefix(self.queue@, i as int, self.queue@.len() as int);
            assert(r@ == selected(self.queue@));
            assert forall|k: int| 0 <= k < self.queue@.len() && is_pending(#[trigger] self.queue@[k]) && !r@.contains(k as usize)
                implies r@.len() == SYNC_BATCH_SIZE && k > r@.last() by {
                if k < i {
                } else {
                    assert(r@.len() == SYNC_BATCH_SIZE);
                    assert(r@.last() < i);
                }
            }
        }
        r
    }

    /// The call that replays entry `idx`.
    pub fn plan_call(&self, idx: usize) -> (c: SyncCall)
        requires
            idx < self.queue@.len(),
        ensures
            ({
                let e = self.queue@[idx as int];
                match operation_of(e.operation@) {
                    Some(SyncOperation::Insert) => if has_row(self.restos@, e.resto_id) {
                        c matches SyncCall::Insert(row) && row.id == e.resto_id && self.restos@.contains(row)
                    } else {
                        c is Skip
                    },
                    Some(SyncOperation::Delete) => c == SyncCall::Delete(e.resto_id),
                    None => c is Skip,
                }
            }),
    {
        let e = &self.queue[idx];
        match SyncOperation::parse(&e.operation) {
            Some(SyncOperation::Insert) => {
                match find_row(&self.restos, e.resto_id) {
                    Some(i) => {
                        let row = self.restos[i].copy();
                        assert(self.restos@[i as int] == row);
                        SyncCall::Insert(row)
                    },
                    None => SyncCall::Skip,
                }
            },
            Some(SyncOperation::Delete) => SyncCall::Delete(e.resto_id),
            None => SyncCall::Skip,
        }
    }
}

/// Upstream's verdict on a call: `None` when it failed, `Some(None)` when it
/// was accepted, `Some(Some(u))` when an insert was accepted under the new
/// id `u`. A skipped call is accepted; a DELETE is accepted on a 2xx status
/// or on 404, the row being already gone.
pub open spec fn verdict(call: SyncCall, reply: UpstreamReply) -> Option<Option<i64>> {
    match call {
        SyncCall::Skip => Some(None),
        SyncCall::Insert(row) => match reply {
            UpstreamReply::Unreachable(_) => None,
            UpstreamReply::Status(c) => if status_success(c) { Some(None) } else { None },
            UpstreamReply::Created(u) => if u == row.id { Some(None) } else { Some(Some(u)) },
        },
        SyncCall::Delete(_) => match reply {
            UpstreamReply::Unreachable(_) => None,
            UpstreamReply::Status(c) => if status_success(c) || c == NOT_FOUND { Some(None) } else { None },
            UpstreamReply::Created(_) => Some(None),
        },
    }
}

pub open spec fn outcome_matches(o: SyncOutcome, v: Option<Option<i64>>) -> bool {
    match v {
        None => o is Failed,
        Some(None) => o is Done,
        Some(Some(u)) => o == SyncOutcome::Renamed(u),
    }
}

/// Decides how a replayed entry ended from upstream's reply to its call.
pub fn reply_outcome(call: &SyncCall, reply: &UpstreamReply) -> (r: SyncOutcome)
    ensures
        outcome_matches(r, verdict(*call, *reply)),
        r matches SyncOutcome::Failed(m) ==> m@ == failure_text(*reply),
        !(call is Skip) ==> (*reply matches UpstreamReply::Unreachable(e) ==> r == SyncOutcome::Failed(e)),
{
    match call {
        SyncCall::Skip => SyncOutcome::Done,
        _ => match reply {
            UpstreamReply::Unreachable(e) => SyncOutcome::Failed(e.clone()),
            UpstreamReply::Created(id) => match call {
                SyncCall::Insert(row) => if *id != row.id {
                    SyncOutcome::Renamed(*id)
                } else {
                    SyncOutcome::Done
                },
                _ => SyncOutcome::Done,
            },
            UpstreamReply::Status(code) => {
                let is_delete = match call {
                    SyncCall::Delete(_) => true,
                    _ => false,
                };
                if (200 <= *code && *code <= 299) || (is_delete && *code == NOT_FOUND) {
                    SyncOutcome::Done
                } else {
                    let mut msg = "Server returned ".to_string();
                    msg.append(decimal(*code as usize).as_str());
                    SyncOutcome::Failed(msg)
                }
            },
        },
    }
}

pub open spec fn row_with(rows: Seq<Resto>, id: i64) -> Resto {
    rows[choose|i: int| 0 <= i < rows.len() && rows[i].id == id]
}

/// The call that replaying entry `e` makes against the rows.
pub open spec fn planned_call(rows: Seq<Resto>, e: SyncQueueItem) -> SyncCall {
    match operation_of(e.operation@) {
        Some(SyncOperation::Insert) => if has_row(rows, e.resto_id) {
            SyncCall::Insert(row_with(rows, e.resto_id))
        } else {
            SyncCall::Skip
        },
        Some(SyncOperation::Delete) => SyncCall::Delete(e.resto_id),
        None => SyncCall::Skip,
    }
}

/// The rows after entry `e` ended with outcome verdict `v`: an accepted
/// insert under a new id renames the local row, unless a row already has
/// that id (the rename then fails).
pub open spec fn rows_after(rows: Seq<Resto>, e: SyncQueueItem, v: Option<Option<i64>>) -> Seq<Resto> {
    match v {
        Some(Some(u)) => if !has_row(rows, u) { rows_renamed(rows, e.resto_id, u) } else { rows },
        _ => rows,
    }
}

pub open spec fn accepted(rows: Seq<Resto>, v: Option<Option<i64>>) -> bool {
    match v {
        None => false,
        Some(None) => true,
        Some(Some(u)) => !has_row(rows, u),
    }
}

/// `e2` is `e` after one more failure, with an error text kept.
pub open spec fn failed_once(e: SyncQueueItem, e2: SyncQueueItem) -> bool {
    &&& e2.last_error is Some
    &&& e2 == SyncQueueItem { retry_count: (e.retry_count + 1) as i32, last_error: e2.last_error, ..e }
}

/// The error kept when a rename would give a row an id already in use.
pub open spec fn rename_conflict_text() -> Seq<char> {
    "UNIQUE constraint failed: restos.id"@
}

/// The error text of a failed reply: the transport's text, or the status.
pub open spec fn failure_text(reply: UpstreamReply) -> Seq<char> {
    match reply {
        UpstreamReply::Unreachable(e) => e@,
        UpstreamReply::Status(c) => "Server returned "@ + decimal_of(c as nat),
        UpstreamReply::Created(_) => Seq::empty(),
    }
}

/// `e2` is entry `e` after it ended with verdict `v`: synced when accepted;
/// otherwise one more failure, keeping `text` for a failed call or the
/// conflict text for a refused rename.
pub open spec fn entry_after(rows: Seq<Resto>, e: SyncQueueItem, v: Option<Option<i64>>, text: Seq<char>, e2: SyncQueueItem) -> bool {
    if accepted(rows, v) {
        e2 == after_success(e)
    } else {
        &&& failed_once(e, e2)
        &&& e2.last_error->Some_0@ == (if v is None { text } else { rename_conflict_text() })
    }
}

proof fn lemma_renamed_keeps_distinct(rows: Seq<Resto>, from: i64, to: i64)
    requires
        ids_distinct(rows),
        !has_row(rows, to),
    ensures
        ids_distinct(rows_renamed(rows, from, to)),
{
    let r = rows_renamed(rows, from, to);
    assert forall|i: int, j: int| 0 <= i < r.len() && 0 <= j < r.len() && i != j implies (#[trigger] r[i]).id != (#[trigger] r[j]).id by {
        assert(rows[i].id != to);
        assert(rows[j].id != to);
    }
}

impl LocalStore {
    /// Applies how entry `idx` ended: success marks it synced (after the
    /// rename of its row, when upstream gave it another id); failure counts
    /// one more retry and keeps the error.
    pub fn apply_outcome(&mut self, idx: usize, outcome: SyncOutcome, Ghost(v): Ghost<Option<Option<i64>>>, Ghost(text): Ghost<Seq<char>>)
        requires
            old(self).wf(),
            idx < old(self).queue@.len(),
            old(self).queue@[idx as int].retry_count < i32::MAX,
            outcome_matches(outcome, v),
            outcome matches SyncOutcome::Failed(m) ==> m@ == text,
            v matches Some(Some(u)) ==> u < i64::MAX,
        ensures
            final(self).wf(),
            final(self).restos@ == rows_after(old(self).restos@, old(self).queue@[idx as int], v),
            final(self).queue@.len() == old(self).queue@.len(),
            forall|t: int| 0 <= t < final(self).queue@.len() && t != idx ==> (#[trigger] final(self).queue@[t]) == old(self).queue@[t],
            entry_after(old(self).restos@, old(self).queue@[idx as int], v, text, final(self).queue@[idx as int]),
            outcome matches SyncOutcome::Failed(m) ==> final(self).queue@[idx as int].last_error == Some(m),
    {
        proof {
            reveal_strlit("UNIQUE constraint failed: restos.id");
        }
        let ok = match outcome {
            SyncOutcome::Done => Ok(()),
            SyncOutcome::Renamed(u) => {
                let from = self.queue[idx].resto_id;
                match find_row(&self.restos, u) {
                    Some(_) => Err("UNIQUE constraint failed: restos.id".to_string()),
                    None => {
                        proof {
                            lemma_renamed_keeps_distinct(self.restos@, from, u);
                        }
                        self.restos = rename_rows(&self.restos, from, u);
                        if u >= self.next_resto_id {
                            self.next_resto_id = u + 1;
                        }
                        assert forall|i: int| 0 <= i < self.restos@.len() implies (#[trigger] self.restos@[i]).id < self.next_resto_id by {
                        }
                        Ok(())
                    },
                }
            },
            SyncOutcome::Failed(m) => Err(m),
        };
        let e = &self.queue[idx];
        let updated = SyncQueueItem {
            id: e.id,
            operation: e.operation.clone(),
            resto_id: e.resto_id,
            payload: match &e.payload {
                Some(p) => Some(p.clone()),
                None => None,
            },
            timestamp: e.timestamp.clone(),
            synced: match ok {
                Ok(()) => true,
                Err(_) => e.synced,
            },
            retry_count: match ok {
                Ok(()) => e.retry_count,
                Err(_) => e.retry_count + 1,
            },
            last_error: match ok {
                Ok(()) => match &e.last_error {
                    Some(l) => Some(l.clone()),
                    None => None,
                },
                Err(m) => Some(m),
            },
        };
        self.queue.set(idx, updated);
    }

    /// Replays entry `idx` given upstream's reply to its call: plans the
    /// call, decides the outcome, applies it. Returns the call made.
    pub fn replay(&mut self, idx: usize, reply: &UpstreamReply) -> (call: SyncCall)
        requires
            old(self).wf(),
            idx < old(self).queue@.len(),
            old(self).queue@[idx as int].retry_count < i32::MAX,
            reply matches UpstreamReply::Created(u) ==> u < i64::MAX,
        ensures
            final(self).wf(),
            call == planned_call(old(self).restos@, old(self).queue@[idx as int]),
            final(self).restos@ == rows_after(old(self).restos@, old(self).queue@[idx as int], verdict(call, *reply)),
            final(self).queue@.len() == old(self).queue@.len(),
            forall|t: int| 0 <= t < final(self).queue@.len() && t != idx ==> (#[trigger] final(self).queue@[t]) == old(self).queue@[t],
            entry_after(old(self).restos@, old(self).queue@[idx as int], verdict(call, *reply), failure_text(*reply), final(self).queue@[idx as int]),
    {
        let call = self.plan_call(idx);
        proof {
            let e = self.queue@[idx as int];
            if operation_of(e.operation@) == Some(SyncOperation::Insert) && has_row(self.restos@, e.resto_id) {
                let row = call->Insert_0;
                let k = choose|k: int| 0 <= k < self.restos@.len() && self.restos@[k] == row;
                let c = choose|i: int| 0 <= i < self.restos@.len() && self.restos@[i].id == e.resto_id;
                assert(k == c);
            }
        }
        let outcome = reply_outcome(&call, reply);
        self.apply_outcome(idx, outcome, Ghost(verdict(call, *reply)), Ghost(failure_text(*reply)));
        call
    }

    /// Records upstream's reply to a call that was planned for entry `idx`
    /// and made: decides the outcome from that call and applies it.
    pub fn record_reply(&mut self, idx: usize, call: &SyncCall, reply: &UpstreamReply)
        requires
            old(self).wf(),
            idx < old(self).queue@.len(),
            old(self).queue@[idx as int].retry_count < i32::MAX,
            *reply matches UpstreamReply::Created(u) ==> u < i64::MAX,
        ensures
            final(self).wf(),
            final(self).restos@ == rows_after(old(self).restos@, old(self).queue@[idx as int], verdict(*call, *reply)),
            final(self).queue@.len() == old(self).queue@.len(),
            forall|t: int| 0 <= t < final(self).queue@.len() && t != idx ==> (#[trigger] final(self).queue@[t]) == old(self).queue@[t],
            entry_after(old(self).restos@, old(self).queue@[idx as int], verdict(*call, *reply), failure_text(*reply), final(self).queue@[idx as int]),
    {
        let outcome = reply_outcome(call, reply);
        self.apply_outcome(idx, outcome, Ghost(verdict(*call, *reply)), Ghost(failure_text(*reply)));
    }
}

/// Upstream's verdict on the `t`-th call of a tick; a call without a reply
/// counts as unreachable.
pub open spec fn verdict_at(call: SyncCall, replies: Seq<UpstreamReply>, t: int) -> Option<Option<i64>> {
    if t < replies.len() {
        verdict(call, replies[t])
    } else {
        match call {
            SyncCall::Skip => Some(None),
            _ => None,
        }
    }
}

/// The error text of the `t`-th reply of a tick.
pub open spec fn text_at(replies: Seq<UpstreamReply>, t: int) -> Seq<char> {
    if t < replies.len() { failure_text(replies[t]) } else { "no reply"@ }
}

/// The rows after the first `t` replays of a tick over entries `sel`.
pub open spec fn tick_rows(rows: Seq<Resto>, q: Seq<SyncQueueItem>, sel: Seq<usize>, replies: Seq<UpstreamReply>, t: int) -> Seq<Resto>
    decreases t,
{
    if t <= 0 {
        rows
    } else {
        let before = tick_rows(rows, q, sel, replies, t - 1);
        let e = q[sel[t - 1] as int];
        rows_after(before, e, verdict_at(planned_call(before, e), replies, t - 1))
    }
}

/// The call of the `t`-th replay of a tick.
pub open spec fn tick_call(rows: Seq<Resto>, q: Seq<SyncQueueItem>, sel: Seq<usize>, replies: Seq<UpstreamReply>, t: int) -> SyncCall {
    planned_call(tick_rows(rows, q, sel, replies, t), q[sel[t] as int])
}

/// The queue `mid` is `q` after the replays of a tick: each selected entry
/// ended as its call's verdict says, and every other entry is unchanged.
pub open spec fn tick_queue(rows: Seq<Resto>, q: Seq<SyncQueueItem>, sel: Seq<usize>, replies: Seq<UpstreamReply>, mid: Seq<SyncQueueItem>) -> bool {
    &&& mid.len() == q.len()
    &&& forall|i: int| 0 <= i < q.len() && !sel.contains(i as usize) ==> #[trigger] mid[i] == q[i]
    &&& forall|t: int| 0 <= t < sel.len() ==> entry_after(
        tick_rows(rows, q, sel, replies, t),
        q[#[trigger] sel[t] as int],
        verdict_at(tick_call(rows, q, sel, replies, t), replies, t),
        text_at(replies, t),
        mid[sel[t] as int],
    )
}

/// Replaying an INSERT entry a second time, with the same reply from
/// upstream, changes no row: after the second reply the entry is synced and
/// its retry count is the one it had.
pub proof fn lemma_replay_insert_idempotent(rows: Seq<Resto>, e: SyncQueueItem, u: i64)
    requires
        ids_distinct(rows),
        operation_of(e.operation@) == Some(SyncOperation::Insert),
        u == e.resto_id || !has_row(rows, u),
    ensures
        ({
            let reply = UpstreamReply::Created(u);
            let v1 = verdict(planned_call(rows, e), reply);
            let rows1 = rows_after(rows, e, v1);
            let e1 = after_success(e);
            let v2 = verdict(planned_call(rows1, e1), reply);
            &&& accepted(rows, v1)
            &&& accepted(rows1, v2)
            &&& rows_after(rows1, e1, v2) == rows1
            &&& after_success(e1).synced
            &&& after_success(e1).retry_count == e.retry_count
        }),
{
    let reply = UpstreamReply::Created(u);
    let v1 = verdict(planned_call(rows, e), reply);
    let rows1 = rows_after(rows, e, v1);
    let e1 = after_success(e);
    if has_row(rows, e.resto_id) {
        let row = row_with(rows, e.resto_id);
        if u != e.resto_id {
            assert(rows1 == rows_renamed(rows, e.resto_id, u));
            assert(!has_row(rows1, e.resto_id)) by {
                if has_row(rows1, e.resto_id) {
                    let k = choose|k: int| 0 <= k < rows1.len() && rows1[k].id == e.resto_id;
                    assert(rows[k].id != e.resto_id);
                }
            }
        }
    }
}

/// When upstream accepts the INSERT of local row `from` under another id
/// `to` that no local row has, the mirror ends with exactly one row with id
/// `to` and none with id `from`.
pub proof fn lemma_insert_renames_row(rows: Seq<Resto>, e: SyncQueueItem, to: i64)
    requires
        ids_distinct(rows),
        operation_of(e.operation@) == Some(SyncOperation::Insert),
        has_row(rows, e.resto_id),
        !has_row(rows, to),
        to != e.resto_id,
    ensures
        ({
            let v = verdict(planned_call(rows, e), UpstreamReply::Created(to));
            let after = rows_after(rows, e, v);
            &&& accepted(rows, v)
            &&& !has_row(after, e.resto_id)
            &&& exists|k: int| 0 <= k < after.len() && after[k].id == to
                && forall|j: int| 0 <= j < after.len() && j != k ==> (#[trigger] after[j]).id != to
        }),
{
    let v = verdict(planned_call(rows, e), UpstreamReply::Created(to));
    let after = rows_after(rows, e, v);
    let k = choose|k: int| 0 <= k < rows.len() && rows[k].id == e.resto_id;
    assert(after == rows_renamed(rows, e.resto_id, to));
    assert(after[k].id == to);
    assert forall|j: int| 0 <= j < after.len() && j != k implies (#[trigger] after[j]).id != to by {
        assert(rows[j].id != e.resto_id);
        assert(rows[j].id != to);
    }
    assert(!has_row(after, e.resto_id)) by {
        if has_row(after, e.resto_id) {
            let j = choose|j: int| 0 <= j < after.len() && after[j].id == e.resto_id;
            assert(rows[j].id != e.resto_id);
        }
    }
}

/// A row added while upstream is down waits as a pending INSERT; once
/// upstream accepts it under id `to`, the entry is synced and the row is the
/// same row with id `to`.
pub proof fn lemma_offline_add_then_sync(rows: Seq<Resto>, r: Resto, e: SyncQueueItem, to: i64)
    requires
        ids_distinct(rows),
        !has_row(rows, r.id),
        operation_of(e.operation@) == Some(SyncOperation::Insert),
        e.resto_id == r.id,
        !e.synced,
        e.retry_count == 0,
        !has_row(rows.push(r), to),
    ensures
        ({
            let added = rows.push(r);
            let v = verdict(planned_call(added, e), UpstreamReply::Created(to));
            &&& is_pending(e)
            &&& planned_call(added, e) == SyncCall::Insert(r)
            &&& accepted(added, v)
            &&& after_success(e).synced
            &&& rows_after(added, e, v) == rows.push(r.with_id(to))
        }),
{
    let added = rows.push(r);
    let last = added.len() - 1;
    assert(added[last].id == r.id);
    let c = choose|i: int| 0 <= i < added.len() && added[i].id == r.id;
    assert(c == last) by {
        if c < last {
            assert(rows[c].id == r.id);
        }
    }
    assert(to != r.id);
    assert(rows_renamed(added, r.id, to) =~= rows.push(r.with_id(to))) by {
        assert forall|i: int| 0 <= i < rows.len() implies rows[i].id != r.id by {}
    }
}

/// An entry that fails three times from a fresh start is no longer pending:
/// no later tick selects it, so its call is never issued again.
pub proof fn lemma_retry_cap(e0: SyncQueueItem, e1: SyncQueueItem, e2: SyncQueueItem, e3: SyncQueueItem)
    requires
        !e0.synced,
        e0.retry_count == 0,
        failed_once(e0, e1),
        failed_once(e1, e2),
        failed_once(e2, e3),
    ensures
        is_pending(e0),
        is_pending(e1),
        is_pending(e2),
        !is_pending(e3),
        e3.retry_count == MAX_RETRIES,
{
}

pub open spec fn synced_count(q: Seq<SyncQueueItem>) -> int
    decreases q.len(),
{
    if q.len() == 0 {
        0
    } else {
        synced_count(q.drop_last()) + if q.last().synced { 1int } else { 0 }
    }
}

proof fn lemma_synced_count_concat(a: Seq<SyncQueueItem>, b: Seq<SyncQueueItem>)
    ensures
        synced_count(a + b) == synced_count(a) + synced_count(b),
        0 <= synced_count(b) <= b.len(),
    decreases b.len(),
{
    if b.len() == 0 {
        assert(a + b =~= a);
    } else {
        lemma_synced_count_concat(a, b.drop_last());
        assert((a + b).drop_last() =~= a + b.drop_last());
    }
}

/// Entry `k` survives pruning: it is not synced, or fewer than
/// `SYNCED_KEPT` synced entries come after it.
pub open spec fn survives_pruning(q: Seq<SyncQueueItem>, k: int) -> bool {
    !q[k].synced || synced_count(q.subrange(k + 1, q.len() as int)) < SYNCED_KEPT
}

/// The first `n` entries of the queue that survive pruning.
pub open spec fn pruned_prefix(q: Seq<SyncQueueItem>, n: int) -> Seq<SyncQueueItem>
    decreases n,
{
    if n <= 0 {
        Seq::empty()
    } else {
        let p = pruned_prefix(q, n - 1);
        if survives_pruning(q, n - 1) {
            p.push(q[n - 1])
        } else {
            p
        }
    }
}

proof fn lemma_pruned_from_queue(q: Seq<SyncQueueItem>, n: int)
    requires
        0 <= n <= q.len(),
    ensures
        forall|t: int| 0 <= t < pruned_prefix(q, n).len() ==> q.contains(#[trigger] pruned_prefix(q, n)[t]),
    decreases n,
{
    if n > 0 {
        lemma_pruned_from_queue(q, n - 1);
        let p = pruned_prefix(q, n - 1);
        assert(q.contains(q[n - 1])) by {
            assert(0 <= n - 1 < q.len() && q[n - 1] == q[n - 1]);
        }
        assert forall|t: int| 0 <= t < pruned_prefix(q, n).len() implies q.contains(#[trigger] pruned_prefix(q, n)[t]) by {
            if t < p.len() {
                assert(q.contains(p[t]));
            }
        }
    }
}

/// Whether an unsynced entry of the queue refers to row `id`.
pub open spec fn referenced(q: Seq<SyncQueueItem>, id: i64) -> bool {
    exists|i: int| 0 <= i < q.len() && !(#[trigger] q[i]).synced && q[i].resto_id == id
}

pub open spec fn rows_referenced(rows: Seq<Resto>, q: Seq<SyncQueueItem>) -> Seq<Resto> {
    rows.filter(|x: Resto| referenced(q, x.id))
}

/// The rows after saving each of `ups` in turn.
pub open spec fn rows_saving_all(rows: Seq<Resto>, ups: Seq<Resto>) -> Seq<Resto>
    decreases ups.len(),
{
    if ups.len() == 0 {
        rows
    } else {
        rows_saving(rows_saving_all(rows, ups.drop_last()), ups.last())
    }
}

fn is_referenced(q: &Vec<SyncQueueItem>, id: i64) -> (r: bool)
    ensures
        r == referenced(q@, id),
{
    let mut i: usize = 0;
    while i < q.len()
        invariant
            i <= q@.len(),
            forall|t: int| 0 <= t < i ==> !(!(#[trigger] q@[t]).synced && q@[t].resto_id == id),
        decreases q.len() - i,
    {
        if !q[i].synced && q[i].resto_id == id {
            return true;
        }
        i += 1;
    }
    false
}

proof fn lemma_filter_keeps_distinct(rows: Seq<Resto>, pred: spec_fn(Resto) -> bool, bound: i64)
    requires
        ids_distinct(rows),
        forall|i: int| 0 <= i < rows.len() ==> (#[trigger] rows[i]).id < bound,
    ensures
        ids_distinct(rows.filter(pred)),
        forall|i: int| 0 <= i < rows.filter(pred).len() ==> (#[trigger] rows.filter(pred)[i]).id < bound,
    decreases rows.len(),
{
    let f = rows.filter(pred);
    if rows.len() > 0 {
        let pre = rows.drop_last();
        assert(rows =~= pre.push(rows.last()));
        lemma_filter_keeps_distinct(pre, pred, bound);
        pre.lemma_filter_push(rows.last(), pred);
        let fp = pre.filter(pred);
        assert forall|i: int, j: int| 0 <= i < f.len() && 0 <= j < f.len() && i != j implies (#[trigger] f[i]).id != (#[trigger] f[j]).id by {
            if pred(rows.last()) {
                if i == fp.len() || j == fp.len() {
                    let o = if i == fp.len() { j } else { i };
                    assert(fp.contains(f[o]));
                    pre.lemma_filter_contains_rev(pred, f[o]);
                    let k = choose|k: int| 0 <= k < pre.len() && pre[k] == f[o];
                    assert(rows[k] == pre[k]);
                    assert(rows[rows.len() - 1] == rows.last());
                }
            }
        }
        assert forall|i: int| 0 <= i < f.len() implies (#[trigger] f[i]).id < bound by {
            if pred(rows.last()) && i == fp.len() {
                assert(rows[rows.len() - 1] == rows.last());
            }
        }
    } else {
        reveal(Seq::filter);
    }
}

impl LocalStore {
    /// Ends a tick: records the time of the sync and keeps, of the synced
    /// entries, only the newest `SYNCED_KEPT`.
    pub fn finish_tick(&mut self, now: String)
        requires
            old(self).wf(),
        ensures
            final(self).wf(),
            final(self).restos@ == old(self).restos@,
            final(self).queue@ == pruned_prefix(old(self).queue@, old(self).queue@.len() as int),
            final(self).last_sync_time == Some(now),
    {
        let ghost q = self.queue@;
        let mut total: usize = 0;
        let mut i: usize = 0;
        while i < self.queue.len()
            invariant
                q == self.queue@,
                i <= q.len(),
                total == synced_count(q.subrange(0, i as int)),
                total <= i,
            decreases self.queue.len() - i,
        {
            proof {
                assert(q.subrange(0, i + 1).drop_last() =~= q.subrange(0, i as int));
            }
            if self.queue[i].synced {
                total += 1;
            }
            i += 1;
        }
        assert(q.subrange(0, i as int) =~= q);
        let mut kept: Vec<SyncQueueItem> = Vec::new();
        let mut seen: usize = 0;
        let mut j: usize = 0;
        while j < self.queue.len()
            invariant
                q == self.queue@,
                j <= q.len(),
                total == synced_count(q),
                seen == synced_count(q.subrange(0, j as int)),
                seen <= total,
                kept@ == pruned_prefix(q, j as int),
            decreases self.queue.len() - j,
        {
            let e = &self.queue[j];
            proof {
                assert(q.subrange(0, j + 1).drop_last() =~= q.subrange(0, j as int));
                lemma_synced_count_concat(q.subrange(0, j + 1), q.subrange(j + 1, q.len() as int));
                assert(q.subrange(0, j + 1) + q.subrange(j + 1, q.len() as int) =~= q);
            }
            let seen_now: usize = if e.synced { seen + 1 } else { seen };
            if !e.synced || total - seen_now < SYNCED_KEPT {
                kept.push(SyncQueueItem {
                    id: e.id,
                    operation: e.operation.clone(),
                    resto_id: e.resto_id,
                    payload: match &e.payload {
                        Some(p) => Some(p.clone()),
                        None => None,
                    },
                    timestamp: e.timestamp.clone(),
                    synced: e.synced,
                    retry_count: e.retry_count,
                    last_error: match &e.last_error {
                        Some(l) => Some(l.clone()),
                        None => None,
                    },
                });
            }
            seen = seen_now;
            j += 1;
        }
        proof {
            lemma_pruned_from_queue(q, q.len() as int);
        }
        self.queue = kept;
        self.last_sync_time = Some(now);
        assert forall|i: int| 0 <= i < self.queue@.len() implies (#[trigger] self.queue@[i]).id < self.next_queue_id by {
            assert(q.contains(self.queue@[i]));
        }
    }

    /// One reconciliation tick with upstream reachable: replays the pending
    /// entries in order, `replies[t]` answering the call of the `t`-th (an
    /// entry without a reply counts as unreachable), then finishes the tick.
    /// Returns the calls made.
    pub fn sync_tick(&mut self, replies: &Vec<UpstreamReply>, now: String) -> (calls: Vec<SyncCall>)
        requires
            old(self).wf(),
            forall|t: int| 0 <= t < replies@.len() ==> (#[trigger] replies@[t] matches UpstreamReply::Created(u) ==> u < i64::MAX),
        ensures
            final(self).wf(),
            final(self).last_sync_time == Some(now),
            ({
                let rows = old(self).restos@;
                let q = old(self).queue@;
                let sel = selected(q);
                &&& calls@.len() == sel.len()
                &&& forall|t: int| 0 <= t < sel.len() ==> #[trigger] calls@[t] == tick_call(rows, q, sel, replies@, t)
                &&& final(self).restos@ == tick_rows(rows, q, sel, replies@, sel.len() as int)
                &&& exists|mid: Seq<SyncQueueItem>| #[trigger] tick_queue(rows, q, sel, replies@, mid)
                    && final(self).queue@ == pruned_prefix(mid, mid.len() as int)
            }),
    {
        let ghost rows0 = self.restos@;
        let pending = self.pending();
        let ghost q0 = self.queue@;
        let mut calls: Vec<SyncCall> = Vec::new();
        let mut t: usize = 0;
        while t < pending.len()
            invariant
                self.wf(),
                t <= pending@.len(),
                self.queue@.len() == q0.len(),
                forall|k: int| 0 <= k < pending@.len() ==> (#[trigger] pending@[k]) < q0.len() && is_pending(q0[pending@[k] as int]),
                forall|a: int, b: int| 0 <= a < b < pending@.len() ==> (#[trigger] pending@[a]) < (#[trigger] pending@[b]),
                forall|k: int| t <= k < pending@.len() ==> self.queue@[(#[trigger] pending@[k]) as int] == q0[pending@[k] as int],
                forall|k: int| 0 <= k < replies@.len() ==> (#[trigger] replies@[k] matches UpstreamReply::Created(u) ==> u < i64::MAX),
                pending@ == selected(q0),
                calls@.len() == t,
                forall|k: int| 0 <= k < t ==> #[trigger] calls@[k] == tick_call(rows0, q0, pending@, replies@, k),
                self.restos@ == tick_rows(rows0, q0, pending@, replies@, t as int),
                forall|i: int| 0 <= i < q0.len() && (forall|k: int| 0 <= k < t ==> #[trigger] pending@[k] != i as usize)
                    ==> #[trigger] self.queue@[i] == q0[i],
                forall|k: int| 0 <= k < t ==> entry_after(
                    tick_rows(rows0, q0, pending@, replies@, k),
                    q0[#[trigger] pending@[k] as int],
                    verdict_at(tick_call(rows0, q0, pending@, replies@, k), replies@, k),
                    text_at(replies@, k),
                    self.queue@[pending@[k] as int],
                ),
            decreases pending.len() - t,
        {
            let idx = pending[t];
            let unreachable = UpstreamReply::Unreachable("no reply".to_string());
            let reply = if t < replies.len() { &replies[t] } else { &unreachable };
            let ghost before = self.queue@;
            let ghost rows_before = self.restos@;
            let call = self.replay(idx, reply);
            proof {
                reveal_strlit("no reply");
                assert(before[idx as int] == q0[idx as int]);
                assert(verdict(call, *reply) == verdict_at(call, replies@, t as int));
                assert(failure_text(*reply) == text_at(replies@, t as int));
                assert(tick_rows(rows0, q0, pending@, replies@, t + 1) == self.restos@);
                assert forall|k: int| 0 <= k < t implies entry_after(
                    tick_rows(rows0, q0, pending@, replies@, k),
                    q0[#[trigger] pending@[k] as int],
                    verdict_at(tick_call(rows0, q0, pending@, replies@, k), replies@, k),
                    text_at(replies@, k),
                    self.queue@[pending@[k] as int],
                ) by {
                    assert(pending@[k] < pending@[t as int]);
                }
                assert forall|i: int| 0 <= i < q0.len() && (forall|k: int| 0 <= k < t + 1 ==> #[trigger] pending@[k] != i as usize)
                    implies #[trigger] self.queue@[i] == q0[i] by {
                    assert(pending@[t as int] != i as usize);
                }
            }
            calls.push(call);
            assert forall|k: int| t + 1 <= k < pending@.len() implies self.queue@[(#[trigger] pending@[k]) as int] == q0[pending@[k] as int] by {
                assert(pending@[t as int] < pending@[k]);
            }
            t += 1;
        }
        let ghost mid = self.queue@;
        proof {
            assert forall|i: int| 0 <= i < q0.len() && !pending@.contains(i as usize) implies #[trigger] mid[i] == q0[i] by {
                assert forall|k: int| 0 <= k < t implies #[trigger] pending@[k] != i as usize by {
                    if pending@[k] == i as usize {
                        assert(pending@.contains(i as usize));
                    }
                }
            }
            assert(tick_queue(rows0, q0, pending@, replies@, mid));
        }
        self.finish_tick(now);
        calls
    }

    /// Replaces the mirror with what upstream listed, keeping the rows that
    /// unsynced queue entries refer to (local work not yet upstream).
    pub fn warm_cache(&mut self, upstream: &Vec<Resto>, now: String)
        requires
            old(self).wf(),
            forall|t: int| 0 <= t < upstream@.len() ==> (#[trigger] upstream@[t]).id < i64::MAX,
        ensures
            final(self).wf(),
            final(self).restos@ == rows_saving_all(rows_referenced(old(self).restos@, old(self).queue@), upstream@),
            final(self).queue@ == old(self).queue@,
            final(self).last_cache_warm == Some(now),
    {
        let ghost q = self.queue@;
        let ghost rows0 = self.restos@;
        let ghost pred = |x: Resto| referenced(q, x.id);
        let mut rows: Vec<Resto> = Vec::new();
        let mut i: usize = 0;
        while i < self.restos.len()
            invariant
                i <= rows0.len(),
                rows0 == self.restos@,
                q == self.queue@,
                pred == (|x: Resto| referenced(q, x.id)),
                rows@ == rows0.subrange(0, i as int).filter(pred),
            decreases self.restos.len() - i,
        {
            proof {
                let pre = rows0.subrange(0, i as int);
                assert(rows0.subrange(0, i + 1) =~= pre.push(rows0[i as int]));
                pre.lemma_filter_push(rows0[i as int], pred);
                assert(pred(rows0[i as int]) == referenced(q, rows0[i as int].id));
            }
            if is_referenced(&self.queue, self.restos[i].id) {
                rows.push(self.restos[i].copy());
            }
            i += 1;
        }
        assert(rows0.subrange(0, i as int) =~= rows0);
        proof {
            lemma_filter_keeps_distinct(rows0, pred, self.next_resto_id);
        }
        self.restos = rows;
        let mut k: usize = 0;
        while k < upstream.len()
            invariant
                k <= upstream@.len(),
                self.wf(),
                q == self.queue@,
                pred == (|x: Resto| referenced(q, x.id)),
                forall|t: int| 0 <= t < upstream@.len() ==> (#[trigger] upstream@[t]).id < i64::MAX,
                self.restos@ == rows_saving_all(rows0.filter(pred), upstream@.subrange(0, k as int)),
            decreases upstream.len() - k,
        {
            self.save_row(upstream[k].copy());
            proof {
                assert(upstream@.subrange(0, k + 1).drop_last() =~= upstream@.subrange(0, k as int));
            }
            k += 1;
        }
        assert(upstream@.subrange(0, k as int) =~= upstream@);
        self.last_cache_warm = Some(now);
    }
}

/// Byte-wise order of strings, as the store orders text.
pub open spec fn bytes_lt(a: Seq<u8>, b: Seq<u8>) -> bool
    decreases a.len(),
{
    if a.len() == 0 {
        b.len() > 0
    } else if b.len() == 0 {
        false
    } else if a[0] != b[0] {
        a[0] < b[0]
    } else {
        bytes_lt(a.drop_first(), b.drop_first())
    }
}

pub open spec fn text_lt(a: String, b: String) -> bool {
    bytes_lt(vstd::utf8::encode_utf8(a@), vstd::utf8::encode_utf8(b@))
}

proof fn lemma_bytes_lt_asymmetric(a: Seq<u8>, b: Seq<u8>)
    ensures
        !(bytes_lt(a, b) && bytes_lt(b, a)),
    decreases a.len(),
{
    if a.len() > 0 && b.len() > 0 && a[0] == b[0] {
        lemma_bytes_lt_asymmetric(a.drop_first(), b.drop_first());
    }
}

fn text_before(a: &String, b: &String) -> (r: bool)
    ensures
        r == text_lt(*a, *b),
{
    let x = a.as_str().as_bytes();
    let y = b.as_str().as_bytes();
    let ghost xs = x@;
    let ghost ys = y@;
    let mut i: usize = 0;
    proof {
        assert(xs.subrange(0, xs.len() as int) =~= xs);
        assert(ys.subrange(0, ys.len() as int) =~= ys);
    }
    while i < x.len() && i < y.len() && x[i] == y[i]
        invariant
            xs == x@,
            ys == y@,
            i <= xs.len(),
            i <= ys.len(),
            bytes_lt(xs, ys) == bytes_lt(xs.subrange(i as int, xs.len() as int), ys.subrange(i as int, ys.len() as int)),
        decreases x.len() - i,
    {
        proof {
            let xa = xs.subrange(i as int, xs.len() as int);
            let ya = ys.subrange(i as int, ys.len() as int);
            assert(xa.drop_first() =~= xs.subrange(i + 1, xs.len() as int));
            assert(ya.drop_first() =~= ys.subrange(i + 1, ys.len() as int));
        }
        i += 1;
    }
    if i == x.len() {
        i < y.len()
    } else if i == y.len() {
        false
    } else {
        x[i] < y[i]
    }
}

/// `a` is listed after `b`: it is older, newer rows coming first.
pub open spec fn listed_after(a: Resto, b: Resto) -> bool {
    text_lt(a.created_at, b.created_at)
}

impl LocalStore {
    /// The local rows, newest first by `created_at`; rows with equal times
    /// keep their stored order.
    pub fn list_local(&self) -> (r: Vec<Resto>)
        ensures
            r@.len() == self.restos@.len(),
            forall|t: int| 0 <= t < r@.len() ==> self.restos@.contains(#[trigger] r@[t]),
            forall|t: int| 0 <= t < r@.len() - 1 ==> !listed_after(#[trigger] r@[t], r@[t + 1]),
            r@.to_multiset() == self.restos@.to_multiset(),
    {
        let mut r: Vec<Resto> = Vec::new();
        let mut i: usize = 0;
        proof {
            crate::search::lemma_empty_to_multiset(r@);
            crate::search::lemma_empty_to_multiset(self.restos@.subrange(0, 0));
        }
        while i < self.restos.len()
            invariant
                i <= self.restos@.len(),
                r@.len() == i,
                r@.to_multiset() == self.restos@.subrange(0, i as int).to_multiset(),
                forall|t: int| 0 <= t < r@.len() ==> self.restos@.contains(#[trigger] r@[t]),
                forall|t: int| 0 <= t < r@.len() - 1 ==> !listed_after(#[trigger] r@[t], r@[t + 1]),
            decreases self.restos.len() - i,
        {
            let row = self.restos[i].copy();
            let mut pos: usize = 0;
            while pos < r.len() && !text_before(&r[pos].created_at, &row.created_at)
                invariant
                    pos <= r@.len(),
                    forall|t: int| 0 <= t < pos ==> !listed_after(#[trigger] r@[t], row),
                decreases r.len() - pos,
            {
                pos += 1;
            }
            let ghost before = r@;
            proof {
                if pos < before.len() {
                    lemma_bytes_lt_asymmetric(
                        vstd::utf8::encode_utf8(before[pos as int].created_at@),
                        vstd::utf8::encode_utf8(row.created_at@),
                    );
                }
            }
            r.insert(pos, row);
            proof {
                vstd::seq_lib::to_multiset_insert(before, pos as int, self.restos@[i as int]);
                assert(self.restos@.subrange(0, i + 1) =~= self.restos@.subrange(0, i as int).push(self.restos@[i as int]));
                vstd::seq_lib::to_multiset_build(self.restos@.subrange(0, i as int), self.restos@[i as int]);
            }
            assert(self.restos@.contains(self.restos@[i as int]));
            assert forall|t: int| 0 <= t < r@.len() - 1 implies !listed_after(#[trigger] r@[t], r@[t + 1]) by {
                if t + 1 < pos {
                    assert(r@[t] == before[t] && r@[t + 1] == before[t + 1]);
                } else if t + 1 == pos {
                    assert(r@[t] == before[t]);
                } else if t == pos {
                } else {
                    assert(r@[t] == before[t - 1] && r@[t + 1] == before[t]);
                }
            }
            assert forall|t: int| 0 <= t < r@.len() implies self.restos@.contains(#[trigger] r@[t]) by {
                if t < pos {
                    assert(r@[t] == before[t]);
                } else if t > pos {
                    assert(r@[t] == before[t - 1]);
                }
            }
            i += 1;
        }
        assert(self.restos@.subrange(0, i as int) =~= self.restos@);
        r
    }
}

/// A row that the offline search returns: at least the asked size, the same
/// thickness, the same material without regard to case.
pub open spec fn search_match(r: Resto, width_mm: i64, height_mm: i64, thickness_mm: i64, material: Seq<char>) -> bool {
    &&& r.width_mm >= width_mm
    &&& r.height_mm >= height_mm
    &&& r.thickness_mm == thickness_mm
    &&& lower_of(r.material@) == lower_of(material)
}

pub open spec fn row_area(r: Resto) -> int {
    r.width_mm * r.height_mm
}

impl LocalStore {
    /// The offline search: the matching rows, smallest area first; rows of
    /// equal area keep their stored order.
    pub fn search_local(&self, width_mm: i64, height_mm: i64, thickness_mm: i64, material: &String) -> (r: Vec<Resto>)
        ensures
            forall|t: int| 0 <= t < r@.len() ==> self.restos@.contains(#[trigger] r@[t])
                && search_match(r@[t], width_mm, height_mm, thickness_mm, material@),
            forall|k: int| 0 <= k < self.restos@.len() && search_match(#[trigger] self.restos@[k], width_mm, height_mm, thickness_mm, material@)
                ==> r@.contains(self.restos@[k]),
            forall|t: int| 0 <= t < r@.len() - 1 ==> row_area(#[trigger] r@[t]) <= row_area(r@[t + 1]),
            r@.to_multiset() == self.restos@.filter(|x: Resto| search_match(x, width_mm, height_mm, thickness_mm, material@)).to_multiset(),
    {
        let ghost pred = |x: Resto| search_match(x, width_mm, height_mm, thickness_mm, material@);
        let key = lowercase(material.as_str());
        let mut r: Vec<Resto> = Vec::new();
        let mut areas: Vec<i128> = Vec::new();
        let mut i: usize = 0;
        while i < self.restos.len()
            invariant
                i <= self.restos@.len(),
                key@ == lower_of(material@),
                areas@.len() == r@.len(),
                forall|t: int| 0 <= t < r@.len() ==> areas@[t] == row_area(#[trigger] r@[t]),
                forall|t: int| 0 <= t < r@.len() ==> self.restos@.contains(#[trigger] r@[t])
                    && search_match(r@[t], width_mm, height_mm, thickness_mm, material@),
                forall|k: int| 0 <= k < i && search_match(#[trigger] self.restos@[k], width_mm, height_mm, thickness_mm, material@)
                    ==> r@.contains(self.restos@[k]),
                forall|t: int| 0 <= t < r@.len() - 1 ==> row_area(#[trigger] r@[t]) <= row_area(r@[t + 1]),
                pred == (|x: Resto| search_match(x, width_mm, height_mm, thickness_mm, material@)),
                r@.to_multiset() == self.restos@.subrange(0, i as int).filter(pred).to_multiset(),
            decreases self.restos.len() - i,
        {
            let row = &self.restos[i];
            proof {
                let pre = self.restos@.subrange(0, i as int);
                assert(self.restos@.subrange(0, i + 1) =~= pre.push(self.restos@[i as int]));
                pre.lemma_filter_push(self.restos@[i as int], pred);
                vstd::seq_lib::to_multiset_build(pre.filter(pred), self.restos@[i as int]);
            }
            if row.width_mm >= width_mm && row.height_mm >= height_mm && row.thickness_mm == thickness_mm
                && lowercase(row.material.as_str()) == key {
                let w = row.width_mm as i128;
                let h = row.height_mm as i128;
                assert(-0x8000_0000_0000_0000 * 0x8000_0000_0000_0000 <= w * h <= 0x8000_0000_0000_0000 * 0x8000_0000_0000_0000) by (nonlinear_arith)
                    requires
                        -0x8000_0000_0000_0000 <= w < 0x8000_0000_0000_0000,
                        -0x8000_0000_0000_0000 <= h < 0x8000_0000_0000_0000,
                ;
                let area = w * h;
                let mut pos: usize = 0;
                while pos < areas.len() && areas[pos] <= area
                    invariant
                        pos <= areas@.len(),
                        areas@.len() == r@.len(),
                        forall|t: int| 0 <= t < pos ==> (#[trigger] areas@[t]) <= area,
                    decreases areas.len() - pos,
                {
                    pos += 1;
                }
                let ghost before = r@;
                let ghost before_areas = areas@;
                r.insert(pos, row.copy());
                areas.insert(pos, area);
                proof {
                    vstd::seq_lib::to_multiset_insert(before, pos as int, self.restos@[i as int]);
                }
                assert(self.restos@.contains(self.restos@[i as int]));
                assert forall|t: int| 0 <= t < r@.len() implies areas@[t] == row_area(#[trigger] r@[t]) by {
                    if t < pos {
                        assert(r@[t] == before[t] && areas@[t] == before_areas[t]);
                    } else if t > pos {
                        assert(r@[t] == before[t - 1] && areas@[t] == before_areas[t - 1]);
                    }
                }
                assert forall|t: int| 0 <= t < r@.len() - 1 implies row_area(#[trigger] r@[t]) <= row_area(r@[t + 1]) by {
                    if t + 1 < pos {
                        assert(r@[t] == before[t] && r@[t + 1] == before[t + 1]);
                    } else if t + 1 == pos {
                        assert(r@[t] == before[t]);
                        assert(areas@[t] == before_areas[t]);
                    } else if t == pos {
                        assert(r@[t + 1] == before[t]);
                        assert(areas@[t + 1] == before_areas[t]);
                    } else {
                        assert(r@[t] == before[t - 1] && r@[t + 1] == before[t]);
                    }
                }
                assert forall|t: int| 0 <= t < r@.len() implies self.restos@.contains(#[trigger] r@[t])
                    && search_match(r@[t], width_mm, height_mm, thickness_mm, material@) by {
                    if t < pos {
                        assert(r@[t] == before[t]);
                    } else if t > pos {
                        assert(r@[t] == before[t - 1]);
                    }
                }
                assert forall|k: int| 0 <= k < i + 1 && search_match(#[trigger] self.restos@[k], width_mm, height_mm, thickness_mm, material@)
                    implies r@.contains(self.restos@[k]) by {
                    if k < i {
                        let u = choose|u: int| 0 <= u < before.len() && before[u] == self.restos@[k];
                        if u < pos {
                            assert(r@[u] == before[u]);
                        } else {
                            assert(r@[u + 1] == before[u]);
                        }
                    } else {
                        assert(r@[pos as int] == self.restos@[k]);
                    }
                }
            }
            i += 1;
        }
        assert(self.restos@.subrange(0, i as int) =~= self.restos@);
        r
    }
}

} // verus!
