//! Evidence storage with scoped reads and bounded backing retention.
//!
//! 1. Knowing an id is not authorization: a scoped read compares the reader's
//!    session, workspace and declared scope with the envelope, and answers
//!    [`EvidenceError::AccessDenied`] on any mismatch.
//! 2. Backing is optional and bounded: bytes are retained only for reversible
//!    or aggressive evidence whose capture is complete and fits the cap.
//!    Otherwise the envelope is kept and only the bytes are dropped.
use std::collections::HashMap;

use vstd::prelude::*;

use crate::ids::TaskId;
use crate::text;
use crate::types;
use crate::types::{
    BackingCompleteness, Compressibility, EvidenceEnvelope, EvidenceError, EvidenceId,
};

verus! {

broadcast use vstd::std_specs::hash::group_hash_axioms;

// ------------------------------------------------------------------ scopes

/// The scope a reader declares: one task, or the session administrator.
#[derive(Debug, Clone, Copy, PartialEq, Eq, Structural)]
pub enum EvidenceAccessScope {
    /// Acting for one task: sees its own envelopes and those of no task.
    Task(TaskId),
    /// The authenticated session administrator: sees every task.
    SessionAdmin,
}

/// The identity a reader presents.
#[derive(Debug, Clone, Copy, PartialEq, Eq, Structural)]
pub struct EvidenceAccessContext {
    pub session_id: u64,
    pub workspace_id: u64,
    pub scope: EvidenceAccessScope,
}

impl EvidenceAccessContext {
    /// A context with an explicit scope.
    pub fn scoped(session_id: u64, workspace_id: u64, scope: EvidenceAccessScope) -> (r: Self)
        ensures
            r == (EvidenceAccessContext { session_id, workspace_id, scope }),
    {
        EvidenceAccessContext { session_id, workspace_id, scope }
    }

    /// A reader acting for one task.
    pub fn for_task(session_id: u64, workspace_id: u64, task_id: TaskId) -> (r: Self)
        ensures
            r == (EvidenceAccessContext {
                session_id,
                workspace_id,
                scope: EvidenceAccessScope::Task(task_id),
            }),
    {
        Self::scoped(session_id, workspace_id, EvidenceAccessScope::Task(task_id))
    }

    /// The session administrator.
    pub fn admin(session_id: u64, workspace_id: u64) -> (r: Self)
        ensures
            r == (EvidenceAccessContext {
                session_id,
                workspace_id,
                scope: EvidenceAccessScope::SessionAdmin,
            }),
    {
        Self::scoped(session_id, workspace_id, EvidenceAccessScope::SessionAdmin)
    }

    /// The context of an optional task: no task means the explicit
    /// administrator scope.
    pub open spec fn of(session_id: u64, workspace_id: u64, task_id: Option<u64>) -> Self {
        EvidenceAccessContext {
            session_id,
            workspace_id,
            scope: match task_id {
                Some(task) => EvidenceAccessScope::Task(TaskId(task)),
                None => EvidenceAccessScope::SessionAdmin,
            },
        }
    }

    /// The context of an optional task.
    pub fn new(session_id: u64, workspace_id: u64, task_id: Option<u64>) -> (r: Self)
        ensures
            r == Self::of(session_id, workspace_id, task_id),
    {
        match task_id {
            Some(task) => Self::scoped(
                session_id,
                workspace_id,
                EvidenceAccessScope::Task(TaskId::new(task)),
            ),
            None => Self::admin(session_id, workspace_id),
        }
    }

    /// The declared scope.
    pub fn scope(&self) -> (r: EvidenceAccessScope)
        ensures
            r == self.scope,
    {
        self.scope
    }

    /// The reader may see an envelope of such a session, workspace and task.
    pub open spec fn sees(&self, session_id: u64, workspace_id: u64, task_id: Option<u64>) -> bool {
        &&& self.session_id == session_id
        &&& self.workspace_id == workspace_id
        &&& match self.scope {
            EvidenceAccessScope::Task(task) => task_id matches Some(t) ==> t == task.0,
            EvidenceAccessScope::SessionAdmin => true,
        }
    }

    /// The reader may see the envelope.
    pub open spec fn sees_envelope(&self, env: types::EnvelopeView) -> bool {
        self.sees(env.session_id, env.workspace_id, env.task_id)
    }
}

/// The text of a scope.
pub open spec fn scope_text(scope: EvidenceAccessScope) -> Seq<char> {
    match scope {
        EvidenceAccessScope::Task(task) => "Task(TaskId("@ + text::decimal(task.0 as nat) + "))"@,
        EvidenceAccessScope::SessionAdmin => "SessionAdmin"@,
    }
}

/// What a reader outside the scope of an envelope is answered.
pub open spec fn denial_text(env: types::EnvelopeView, ctx: EvidenceAccessContext) -> Seq<char> {
    "evidence "@ + text::decimal(env.id as nat) + " belongs to session "@ + text::decimal(
        env.session_id as nat,
    ) + " workspace "@ + text::decimal(env.workspace_id as nat) + " task "@ + (match env.task_id {
        Some(t) => text::decimal(t as nat),
        None => "none"@,
    }) + "; caller is session "@ + text::decimal(ctx.session_id as nat) + " workspace "@
        + text::decimal(ctx.workspace_id as nat) + " scope "@ + scope_text(ctx.scope)
}

/// Refuses a reader outside the scope of the envelope.
pub fn ensure_scope(env: &EvidenceEnvelope, ctx: &EvidenceAccessContext) -> (r: Result<
    (),
    EvidenceError,
>)
    ensures
        r is Ok <==> ctx.sees_envelope(env@),
        r matches Err(e) ==> e@ == types::ErrorView::AccessDenied(denial_text(env@, *ctx)),
{
    let session_ok: bool = env.session_id.raw() == ctx.session_id;
    let workspace_ok: bool = env.workspace_id.raw() == ctx.workspace_id;
    let task_ok: bool = match ctx.scope {
        EvidenceAccessScope::Task(task) => match env.task_id {
            Some(env_task) => env_task == task.raw(),
            None => true,
        },
        EvidenceAccessScope::SessionAdmin => true,
    };
    if session_ok && workspace_ok && task_ok {
        return Ok(());
    }
    let mut m: String = "evidence ".to_owned();
    text::push_decimal(&mut m, env.id.0);
    m.append(" belongs to session ");
    text::push_decimal(&mut m, env.session_id.raw());
    m.append(" workspace ");
    text::push_decimal(&mut m, env.workspace_id.raw());
    m.append(" task ");
    match env.task_id {
        Some(t) => text::push_decimal(&mut m, t),
        None => m.append("none"),
    }
    m.append("; caller is session ");
    text::push_decimal(&mut m, ctx.session_id);
    m.append(" workspace ");
    text::push_decimal(&mut m, ctx.workspace_id);
    m.append(" scope ");
    let mut scope: String = String::new();
    match ctx.scope {
        EvidenceAccessScope::Task(task) => {
            scope.append("Task(TaskId(");
            text::push_decimal(&mut scope, task.raw());
            scope.append("))");
        },
        EvidenceAccessScope::SessionAdmin => {
            scope.append("SessionAdmin");
        },
    }
    proof {
        assert(scope@ =~= scope_text(ctx.scope));
    }
    m.append(scope.as_str());
    Err(EvidenceError::AccessDenied(m))
}

// ---------------------------------------------------------------- evidence

/// One stored envelope plus the backing bytes the store chose to retain.
#[derive(Debug, Clone, PartialEq, Eq)]
pub struct StoredEvidence {
    pub envelope: EvidenceEnvelope,
    pub backing: Option<Vec<u8>>,
}

/// The view of optional bytes.
pub open spec fn opt_bytes(b: Option<Vec<u8>>) -> Option<Seq<u8>> {
    match b {
        Some(v) => Some(v@),
        None => None,
    }
}

/// A stored envelope with its retained bytes.
#[verifier::ext_equal]
pub struct StoredView {
    pub envelope: types::EnvelopeView,
    pub backing: Option<Seq<u8>>,
}

impl View for StoredEvidence {
    type V = StoredView;

    open spec fn view(&self) -> StoredView {
        StoredView { envelope: self.envelope@, backing: opt_bytes(self.backing) }
    }
}

/// A copy of bytes.
pub fn copy_bytes(b: &[u8]) -> (r: Vec<u8>)
    ensures
        r@ == b@,
{
    let mut out: Vec<u8> = Vec::new();
    append_bytes(&mut out, b);
    proof {
        assert(Seq::<u8>::empty() + b@ =~= b@);
    }
    out
}

/// Appends a copy of bytes.
pub fn append_bytes(out: &mut Vec<u8>, b: &[u8])
    ensures
        final(out)@ == old(out)@ + b@,
{
    let mut i: usize = 0;
    proof {
        assert(old(out)@ + b@.take(0) =~= old(out)@);
    }
    while i < b.len()
        invariant
            i <= b.len(),
            out@ == old(out)@ + b@.take(i as int),
        decreases b.len() - i,
    {
        proof {
            assert(b@.take(i as int + 1) =~= b@.take(i as int).push(b@[i as int]));
        }
        out.push(b[i]);
        i = i + 1;
    }
    proof {
        assert(b@.take(i as int) =~= b@);
    }
}

impl StoredEvidence {
    /// Length of the retained backing, where any is retained.
    pub fn backing_len(&self) -> (r: Option<usize>)
        ensures
            match self@.backing {
                Some(b) => r == Some(b.len() as usize) && b.len() <= usize::MAX,
                None => r is None,
            },
    {
        match &self.backing {
            Some(b) => Some(b.len()),
            None => None,
        }
    }

    /// A copy.
    pub fn duplicate(&self) -> (r: StoredEvidence)
        ensures
            r@ == self@,
    {
        StoredEvidence {
            envelope: self.envelope.duplicate(),
            backing: match &self.backing {
                Some(b) => Some(copy_bytes(b.as_slice())),
                None => None,
            },
        }
    }
}

/// What reading an unknown id is answered.
pub open spec fn unknown_text(id: u64) -> Seq<char> {
    "unknown evidence id "@ + text::decimal(id as nat)
}

/// What a scoped read of `id` gives, given what the store holds under it.
pub open spec fn scoped_read(
    found: Result<Option<StoredView>, types::ErrorView>,
    id: u64,
    ctx: EvidenceAccessContext,
) -> Result<StoredView, types::ErrorView> {
    match found {
        Err(e) => Err(e),
        Ok(None) => Err(types::ErrorView::Malformed(unknown_text(id))),
        Ok(Some(s)) => if ctx.sees_envelope(s.envelope) {
            Ok(s)
        } else {
            Err(types::ErrorView::AccessDenied(denial_text(s.envelope, ctx)))
        },
    }
}

/// `got` is what a scoped read of `id` may give. Where reading fails, a store
/// answers with that failure, or, where it does not tell failures apart, as for
/// an id that it does not hold.
pub open spec fn scoped_answer(
    found: Result<Option<StoredView>, types::ErrorView>,
    id: u64,
    ctx: EvidenceAccessContext,
    got: Result<StoredView, types::ErrorView>,
) -> bool {
    ||| got == scoped_read(found, id, ctx)
    ||| found is Err && got == scoped_read(Ok(None), id, ctx)
}

/// The view of a scoped read.
pub open spec fn read_view(r: Result<StoredEvidence, EvidenceError>) -> Result<
    StoredView,
    types::ErrorView,
> {
    match r {
        Ok(s) => Ok(s@),
        Err(e) => Err(e@),
    }
}

/// The scope decision over what a store holds under `id`.
pub fn scoped(found: Option<StoredEvidence>, id: EvidenceId, ctx: &EvidenceAccessContext) -> (r:
    Result<StoredEvidence, EvidenceError>)
    ensures
        read_view(r) == scoped_read(
            Ok(
                match found {
                    Some(s) => Some(s@),
                    None => None,
                },
            ),
            id.0,
            *ctx,
        ),
{
    match found {
        None => {
            let mut m: String = "unknown evidence id ".to_owned();
            text::push_decimal(&mut m, id.0);
            Err(EvidenceError::Malformed(m))
        },
        Some(stored) => match ensure_scope(&stored.envelope, ctx) {
            Ok(()) => Ok(stored),
            Err(e) => Err(e),
        },
    }
}

/// Evidence storage. `insert` never overwrites: a replay can never silently
/// replace stored evidence.
pub trait EvidenceStore {
    /// What the store holds under an id, or what reading it fails with. A store
    /// that is not verified leaves this open.
    open spec fn lookup(&self, id: u64) -> Result<Option<StoredView>, types::ErrorView> {
        arbitrary()
    }

    /// The store's own invariant.
    open spec fn valid(&self) -> bool {
        true
    }

    fn insert(&mut self, env: EvidenceEnvelope, backing: Option<Vec<u8>>) -> (r: Result<
        (),
        EvidenceError,
    >)
        requires
            old(self).valid(),
        ensures
            final(self).valid(),
            forall|id: u64|
                (#[trigger] old(self).lookup(id)) matches Ok(Some(s)) ==> final(self).lookup(id)
                    == old(self).lookup(id),
    ;

    /// Raw, unscoped lookup. Callers acting for a session use
    /// [`EvidenceStore::get_scoped`].
    fn get(&self, id: EvidenceId) -> (r: Option<StoredEvidence>)
        requires
            self.valid(),
        ensures
            match self.lookup(id.0) {
                Ok(Some(s)) => r matches Some(v) && v@ == s,
                _ => r is None,
            },
    ;

    /// Scope-checked read: the scope decision over what [`EvidenceStore::get`]
    /// gives, the same for every store.
    fn get_scoped(&self, id: EvidenceId, ctx: &EvidenceAccessContext) -> (r: Result<
        StoredEvidence,
        EvidenceError,
    >)
        requires
            self.valid(),
        ensures
            scoped_answer(self.lookup(id.0), id.0, *ctx, read_view(r)),
        default_ensures
            self.lookup(id.0) is Err ==> read_view(r) == scoped_read(Ok(None), id.0, *ctx),
    {
        scoped(self.get(id), id, ctx)
    }

    /// Unscoped existence probe.
    fn holds(&self, id: EvidenceId) -> (r: Result<bool, EvidenceError>)
        requires
            self.valid(),
        ensures
            self.lookup(id.0) matches Ok(found) ==> r == Ok::<bool, EvidenceError>(found is Some),
    {
        Ok(self.get(id).is_some())
    }
}

// ------------------------------------------------------------ memory store

/// One bounded newest-first page of scoped evidence envelopes. `next_before` is
/// the exclusive id cursor of the next page.
#[derive(Debug, Clone, PartialEq, Eq)]
pub struct EvidencePage {
    pub rows: Vec<EvidenceEnvelope>,
    pub next_before: Option<u64>,
}

impl Default for EvidencePage {
    fn default() -> (r: Self)
        ensures
            r.rows@.len() == 0,
            r.next_before is None,
    {
        EvidencePage { rows: Vec::new(), next_before: None }
    }
}

/// The views of envelopes.
pub open spec fn envelope_views(rows: Seq<EvidenceEnvelope>) -> Seq<types::EnvelopeView> {
    Seq::new(rows.len(), |i: int| rows[i]@)
}

/// Bytes are retained only where they can be re-expanded: the envelope claims
/// `Reversible` or `Aggressive`, the capture is complete, and they fit `cap`.
pub open spec fn retains(env: types::EnvelopeView, len: nat, cap: nat) -> bool {
    &&& env.compressibility == Compressibility::Reversible || env.compressibility
        == Compressibility::Aggressive
    &&& env.backing_completeness == BackingCompleteness::Complete
    &&& len <= cap
}

/// What is retained of presented bytes.
pub open spec fn retained(env: types::EnvelopeView, backing: Option<Seq<u8>>, cap: nat) -> Option<
    Seq<u8>,
> {
    match backing {
        Some(b) => if retains(env, b.len(), cap) {
            Some(b)
        } else {
            None
        },
        None => None,
    }
}

/// In-memory [`EvidenceStore`] with a hard per-envelope backing cap.
#[derive(Debug)]
pub struct MemoryEvidenceStore {
    entries: HashMap<u64, StoredEvidence>,
    /// Insertion order, oldest first.
    order: Vec<u64>,
    backing_cap: usize,
}

impl MemoryEvidenceStore {
    /// What the store holds, by id.
    pub closed spec fn contents(&self) -> Map<u64, StoredView> {
        Map::new(|id: u64| self.entries@.contains_key(id), |id: u64| self.entries@[id]@)
    }

    /// The ids in insertion order, oldest first.
    pub closed spec fn inserted(&self) -> Seq<u64> {
        self.order@
    }

    /// The cap on retained bytes.
    pub closed spec fn cap(&self) -> nat {
        self.backing_cap as nat
    }

    /// Every id was inserted once, and its envelope carries it.
    pub open spec fn well_formed(&self) -> bool {
        &&& self.inserted().no_duplicates()
        &&& self.contents().dom().finite()
        &&& forall|id: u64| #[trigger]
            self.contents().contains_key(id) <==> self.inserted().contains(id)
        &&& forall|id: u64| #[trigger]
            self.contents().contains_key(id) ==> self.contents()[id].envelope.id == id
    }

    /// A store that retains backing bytes only up to `backing_cap` per
    /// envelope.
    pub fn new(backing_cap: usize) -> (r: Self)
        ensures
            r.well_formed(),
            r.contents() == Map::<u64, StoredView>::empty(),
            r.inserted() == Seq::<u64>::empty(),
            r.cap() == backing_cap,
    {
        let r = MemoryEvidenceStore { entries: HashMap::new(), order: Vec::new(), backing_cap };
        proof {
            assert(r.contents() =~= Map::<u64, StoredView>::empty());
        }
        r
    }

    pub fn backing_cap(&self) -> (r: usize)
        ensures
            r == self.cap(),
    {
        self.backing_cap
    }

    pub fn len(&self) -> (r: usize)
        requires
            self.well_formed(),
        ensures
            r == self.contents().dom().len(),
    {
        let n: usize = self.entries.len();
        proof {
            assert(self.contents().dom() =~= self.entries@.dom());
        }
        n
    }

    pub fn is_empty(&self) -> (r: bool)
        requires
            self.well_formed(),
        ensures
            r == (self.contents().dom().len() == 0),
    {
        self.len() == 0
    }

    pub fn contains(&self, id: EvidenceId) -> (r: bool)
        ensures
            r == self.contents().contains_key(id.0),
    {
        self.entries.contains_key(&id.0)
    }

    /// The stored evidence under `id`.
    fn find(&self, id: u64) -> (r: Option<StoredEvidence>)
        ensures
            match r {
                Some(s) => self.contents().contains_key(id) && self.contents()[id] == s@,
                None => !self.contents().contains_key(id),
            },
    {
        match self.entries.get(&id) {
            Some(s) => Some(s.duplicate()),
            None => None,
        }
    }

    /// What a scoped read of `id` gives.
    pub open spec fn reads(&self, id: u64, ctx: EvidenceAccessContext) -> Result<
        StoredView,
        types::ErrorView,
    > {
        scoped_read(
            Ok(
                if self.contents().contains_key(id) {
                    Some(self.contents()[id])
                } else {
                    None
                },
            ),
            id,
            ctx,
        )
    }

    /// `id` is stored and visible to `ctx`.
    pub open spec fn shows(&self, id: u64, ctx: EvidenceAccessContext) -> bool {
        self.contents().contains_key(id) && ctx.sees_envelope(self.contents()[id].envelope)
    }

    /// The stored, visible ids among the first `n` inserted ones, ascending.
    fn visible_ids(&self, ctx: &EvidenceAccessContext) -> (r: Vec<u64>)
        requires
            self.well_formed(),
        ensures
            ascending(r@),
            forall|id: u64| #[trigger] r@.contains(id) <==> self.shows(id, *ctx),
    {
        let mut out: Vec<u64> = Vec::new();
        let mut i: usize = 0;
        while i < self.order.len()
            invariant
                i <= self.order.len(),
                self.well_formed(),
                ascending(out@),
                forall|id: u64| #[trigger]
                    out@.contains(id) <==> self.inserted().take(i as int).contains(id)
                        && self.shows(id, *ctx),
            decreases self.order.len() - i,
        {
            let id: u64 = self.order[i];
            let ghost before = out@;
            let ghost seen = self.inserted().take(i as int);
            let ghost now = self.inserted().take(i as int + 1);
            proof {
                assert(now =~= seen.push(id));
                assert(!seen.contains(id)) by {
                    if seen.contains(id) {
                        let k = choose|k: int| 0 <= k < seen.len() && seen[k] == id;
                        assert(self.inserted()[k] == self.inserted()[i as int]);
                    }
                }
                assert(self.inserted().contains(id));
                assert forall|x: u64| now.contains(x) <==> seen.contains(x) || x == id by {
                    lemma_contains_push(seen, id, x);
                }
            }
            if let Some(s) = self.entries.get(&id) {
                if ensure_scope(&s.envelope, ctx).is_ok() {
                    insert_ascending(&mut out, id);
                }
            }
            i = i + 1;
        }
        proof {
            assert(self.inserted().take(i as int) =~= self.inserted());
        }
        out
    }

    /// Every envelope visible to `ctx`, ascending by id, at most `limit`.
    pub fn list_scoped_envelopes(&self, ctx: &EvidenceAccessContext, limit: usize) -> (r: Vec<
        EvidenceEnvelope,
    >)
        requires
            self.well_formed(),
        ensures
            r.len() <= limit,
            forall|i: int, j: int| 0 <= i < j < r.len() ==> r@[i]@.id < r@[j]@.id,
            forall|i: int|
                0 <= i < r.len() ==> self.shows(#[trigger] r@[i]@.id, *ctx) && r@[i]@
                    == self.contents()[r@[i]@.id].envelope,
            forall|id: u64| #[trigger]
                self.shows(id, *ctx) ==> (exists|i: int| 0 <= i < r.len() && r@[i]@.id == id) || (
                r.len() == limit && (forall|i: int| 0 <= i < r.len() ==> r@[i]@.id < id)),
    {
        let ids: Vec<u64> = self.visible_ids(ctx);
        let mut out: Vec<EvidenceEnvelope> = Vec::new();
        let mut i: usize = 0;
        while i < ids.len() && i < limit
            invariant
                i <= ids.len(),
                i <= limit,
                out.len() == i,
                self.well_formed(),
                ascending(ids@),
                forall|id: u64| #[trigger] ids@.contains(id) <==> self.shows(id, *ctx),
                forall|k: int| 0 <= k < i ==> (#[trigger] out@[k])@.id == ids@[k] && out@[k]@
                    == self.contents()[ids@[k]].envelope,
            decreases ids.len() - i,
        {
            let id: u64 = ids[i];
            proof {
                assert(ids@.contains(id));
            }
            if let Some(s) = self.entries.get(&id) {
                out.push(s.envelope.duplicate());
            }
            i = i + 1;
        }
        proof {
            assert forall|k: int| 0 <= k < out.len() implies self.shows(
                #[trigger] out@[k]@.id,
                *ctx,
            ) && out@[k]@ == self.contents()[out@[k]@.id].envelope by {
                assert(ids@.contains(ids@[k]));
            }
            assert forall|id: u64| #[trigger] self.shows(id, *ctx) implies (exists|i: int|
                0 <= i < out.len() && out@[i]@.id == id) || (out.len() == limit && (forall|i: int|
                0 <= i < out.len() ==> out@[i]@.id < id)) by {
                assert(ids@.contains(id));
                let k = choose|k: int| 0 <= k < ids@.len() && ids@[k] == id;
                if k < out.len() {
                    assert(out@[k]@.id == id);
                }
            }
        }
        out
    }

    /// The rows of a newest-first page over the ids `order`, oldest first.
    pub open spec fn newest(
        &self,
        order: Seq<u64>,
        ctx: EvidenceAccessContext,
        before: Option<u64>,
        limit: nat,
    ) -> Seq<types::EnvelopeView>
        decreases order.len(),
    {
        if order.len() == 0 || limit == 0 {
            Seq::empty()
        } else {
            let id = order.last();
            if (before matches Some(b) && id >= b) || !self.shows(id, ctx) {
                self.newest(order.drop_last(), ctx, before, limit)
            } else {
                seq![self.contents()[id].envelope] + self.newest(
                    order.drop_last(),
                    ctx,
                    before,
                    (limit - 1) as nat,
                )
            }
        }
    }

    /// The newest-first scoped page: a reverse walk of the insertion order with
    /// the exclusive `before` id cursor.
    pub fn list_scoped_newest(
        &self,
        ctx: &EvidenceAccessContext,
        before: Option<u64>,
        limit: usize,
    ) -> (r: EvidencePage)
        requires
            self.well_formed(),
        ensures
            envelope_views(r.rows@) == self.newest(self.inserted(), *ctx, before, limit as nat),
            r.next_before == (if r.rows.len() == 0 {
                None
            } else {
                Some(r.rows@.last()@.id)
            }),
    {
        let mut rows: Vec<EvidenceEnvelope> = Vec::new();
        let mut n: usize = self.order.len();
        let ghost goal = self.newest(self.inserted(), *ctx, before, limit as nat);
        proof {
            assert(self.inserted().take(n as int) =~= self.inserted());
            assert(envelope_views(rows@) + goal =~= goal);
        }
        while n > 0 && rows.len() < limit
            invariant
                n <= self.order.len(),
                rows.len() <= limit,
                self.well_formed(),
                goal == envelope_views(rows@) + self.newest(
                    self.inserted().take(n as int),
                    *ctx,
                    before,
                    (limit - rows.len()) as nat,
                ),
            decreases n,
        {
            let id: u64 = self.order[n - 1];
            let ghost rest = self.inserted().take(n as int);
            let ghost had = rows@;
            proof {
                assert(rest.drop_last() =~= self.inserted().take(n as int - 1));
                assert(rest.last() == id);
                assert(self.inserted().contains(id));
            }
            let skip: bool = match before {
                Some(b) => id >= b,
                None => false,
            };
            if !skip {
                if let Some(s) = self.entries.get(&id) {
                    if ensure_scope(&s.envelope, ctx).is_ok() {
                        let row: EvidenceEnvelope = s.envelope.duplicate();
                        rows.push(row);
                        proof {
                            assert(envelope_views(rows@) =~= envelope_views(had).push(row@));
                            assert(envelope_views(had) + (seq![row@] + self.newest(
                                self.inserted().take(n as int - 1),
                                *ctx,
                                before,
                                (limit - rows@.len()) as nat,
                            )) =~= envelope_views(rows@) + self.newest(
                                self.inserted().take(n as int - 1),
                                *ctx,
                                before,
                                (limit - rows@.len()) as nat,
                            ));
                        }
                    }
                }
            }
            n = n - 1;
        }
        proof {
            assert(envelope_views(rows@) + Seq::empty() =~= envelope_views(rows@));
        }
        let next_before: Option<u64> = if rows.len() == 0 {
            None
        } else {
            Some(rows[rows.len() - 1].id.0)
        };
        EvidencePage { rows, next_before }
    }

    /// Backing retention.
    fn retain_backing(env: &EvidenceEnvelope, backing: Option<Vec<u8>>, cap: usize) -> (r: Option<
        Vec<u8>,
    >)
        ensures
            opt_bytes(r) == retained(env@, opt_bytes(backing), cap as nat),
    {
        match backing {
            None => None,
            Some(bytes) => {
                let compactable: bool = env.compressibility == Compressibility::Reversible
                    || env.compressibility == Compressibility::Aggressive;
                if compactable && env.backing_completeness == BackingCompleteness::Complete
                    && bytes.len() <= cap {
                    Some(bytes)
                } else {
                    None
                }
            },
        }
    }
}

/// What a second insert under a live id is answered.
pub open spec fn exists_text(id: u64) -> Seq<char> {
    "evidence "@ + text::decimal(id as nat)
        + " already exists; refusing to overwrite stored evidence"@
}

impl EvidenceStore for MemoryEvidenceStore {
    open spec fn lookup(&self, id: u64) -> Result<Option<StoredView>, types::ErrorView> {
        Ok(
            if self.contents().contains_key(id) {
                Some(self.contents()[id])
            } else {
                None
            },
        )
    }

    open spec fn valid(&self) -> bool {
        self.well_formed()
    }

    fn insert(&mut self, env: EvidenceEnvelope, backing: Option<Vec<u8>>) -> (r: Result<
        (),
        EvidenceError,
    >)
        ensures
            r is Ok <==> !old(self).contents().contains_key(env@.id),
            final(self).cap() == old(self).cap(),
            match r {
                Ok(()) => {
                    &&& final(self).contents() == old(self).contents().insert(
                        env@.id,
                        (StoredView {
                            envelope: env@,
                            backing: retained(env@, opt_bytes(backing), old(self).cap()),
                        }),
                    )
                    &&& final(self).inserted() == old(self).inserted().push(env@.id)
                },
                Err(e) => {
                    &&& e@ == types::ErrorView::Refused(exists_text(env@.id))
                    &&& final(self).contents() == old(self).contents()
                    &&& final(self).inserted() == old(self).inserted()
                },
            },
    {
        let id: u64 = env.id.0;
        if self.entries.contains_key(&id) {
            let mut m: String = "evidence ".to_owned();
            text::push_decimal(&mut m, id);
            m.append(" already exists; refusing to overwrite stored evidence");
            return Err(EvidenceError::Refused(m));
        }
        let ghost before = self.contents();
        let ghost order_before = self.inserted();
        proof {
            assert(!before.contains_key(id));
            assert(!order_before.contains(id));
        }
        let kept: Option<Vec<u8>> = Self::retain_backing(&env, backing, self.backing_cap);
        let stored = StoredEvidence { envelope: env, backing: kept };
        self.order.push(id);
        self.entries.insert(id, stored);
        proof {
            assert(self.contents() =~= before.insert(id, stored@));
            assert(self.inserted() =~= order_before.push(id));
            assert forall|x: u64| #[trigger]
                self.contents().contains_key(x) <==> self.inserted().contains(x) by {
                lemma_contains_push(order_before, id, x);
            }
            assert forall|i: int, j: int|
                0 <= i < self.inserted().len() && 0 <= j < self.inserted().len() && i
                    != j implies self.inserted()[i] != self.inserted()[j] by {
                if i == order_before.len() {
                    assert(order_before.contains(order_before[j]));
                } else if j == order_before.len() {
                    assert(order_before.contains(order_before[i]));
                }
            }
        }
        Ok(())
    }

    fn get(&self, id: EvidenceId) -> (r: Option<StoredEvidence>) {
        self.find(id.0)
    }

    fn holds(&self, id: EvidenceId) -> (r: Result<bool, EvidenceError>) {
        Ok(self.contains(id))
    }
}

/// Strictly ascending numbers.
pub open spec fn ascending(s: Seq<u64>) -> bool {
    forall|i: int, j: int| 0 <= i < j < s.len() ==> s[i] < s[j]
}

proof fn lemma_contains_push(s: Seq<u64>, y: u64, x: u64)
    ensures
        s.push(y).contains(x) <==> s.contains(x) || x == y,
{
    if s.contains(x) {
        let k = choose|k: int| 0 <= k < s.len() && s[k] == x;
        assert(s.push(y)[k] == x);
    }
    if x == y {
        assert(s.push(y)[s.len() as int] == x);
    }
    if s.push(y).contains(x) {
        let k = choose|k: int| 0 <= k < s.push(y).len() && s.push(y)[k] == x;
        if k < s.len() {
            assert(s[k] == x);
        }
    }
}

/// Inserts a number that is not there yet at its place.
fn insert_ascending(out: &mut Vec<u64>, x: u64)
    requires
        ascending(old(out)@),
        !old(out)@.contains(x),
    ensures
        ascending(final(out)@),
        forall|y: u64| #[trigger]
            final(out)@.contains(y) <==> old(out)@.contains(y) || y == x,
{
    let mut k: usize = out.len();
    while k > 0 && out[k - 1] > x
        invariant
            k <= out.len(),
            out@ == old(out)@,
            forall|j: int| k <= j < out.len() ==> out@[j] > x,
        decreases k,
    {
        k = k - 1;
    }
    proof {
        if k > 0 {
            assert(out@.contains(out@[k - 1]));
        }
    }
    let ghost before = out@;
    out.insert(k, x);
    proof {
        assert forall|y: u64| #[trigger] out@.contains(y) <==> before.contains(y) || y == x by {
            if before.contains(y) {
                let j = choose|j: int| 0 <= j < before.len() && before[j] == y;
                if j < k {
                    assert(out@[j] == y);
                } else {
                    assert(out@[j + 1] == y);
                }
            }
            if y == x {
                assert(out@[k as int] == y);
            }
            if out@.contains(y) {
                let j = choose|j: int| 0 <= j < out@.len() && out@[j] == y;
                if j < k {
                    assert(before[j] == y);
                } else if j > k {
                    assert(before[j - 1] == y);
                }
            }
        }
        assert forall|i: int, j: int| 0 <= i < j < out@.len() implies out@[i] < out@[j] by {
            let bi = if i < k {
                before[i]
            } else if i == k {
                x
            } else {
                before[i - 1]
            };
            let bj = if j < k {
                before[j]
            } else if j == k {
                x
            } else {
                before[j - 1]
            };
            assert(out@[i] == bi && out@[j] == bj);
            if k > 0 {
                assert(i < k && i < k - 1 ==> before[i] < before[k - 1]);
            }
        }
    }
}

// -------------------------------------------------------------------- laws

/// Knowing an id opens nothing by itself: what a scoped read gives is what the
/// store holds, to a reader of its session and workspace who declared its task or
/// the administrator scope, or where it belongs to no task. Every other reader is
/// denied.
pub proof fn law_an_id_is_no_authorization(
    found: StoredView,
    id: u64,
    ctx: EvidenceAccessContext,
)
    ensures
        ({
            let env = found.envelope;
            let r = scoped_read(Ok(Some(found)), id, ctx);
            if env.session_id == ctx.session_id && env.workspace_id == ctx.workspace_id && (
            ctx.scope is SessionAdmin || env.task_id is None || ctx.scope
                == EvidenceAccessScope::Task(TaskId(env.task_id->0))) {
                r == Ok::<StoredView, types::ErrorView>(found)
            } else {
                r matches Err(types::ErrorView::AccessDenied(_))
            }
        }),
{
}

/// What was inserted reads back, with its bytes where they are retained, and
/// every other id reads as before.
pub proof fn law_what_was_inserted_reads_back(
    before: MemoryEvidenceStore,
    after: MemoryEvidenceStore,
    env: types::EnvelopeView,
    backing: Option<Seq<u8>>,
    other: u64,
    ctx: EvidenceAccessContext,
)
    requires
        after.contents() == before.contents().insert(
            env.id,
            (StoredView { envelope: env, backing: retained(env, backing, before.cap()) }),
        ),
        other != env.id,
    ensures
        ctx.sees_envelope(env) ==> after.reads(env.id, ctx) == Ok::<StoredView, types::ErrorView>(
            StoredView { envelope: env, backing: retained(env, backing, before.cap()) },
        ),
        after.reads(other, ctx) == before.reads(other, ctx),
{
}

proof fn lemma_page_rows(
    store: MemoryEvidenceStore,
    order: Seq<u64>,
    ctx: EvidenceAccessContext,
    before: Option<u64>,
    limit: nat,
)
    requires
        store.well_formed(),
    ensures
        store.newest(order, ctx, before, limit).len() <= limit,
        forall|i: int|
            0 <= i < store.newest(order, ctx, before, limit).len() ==> {
                let row = #[trigger] store.newest(order, ctx, before, limit)[i];
                &&& order.contains(row.id)
                &&& store.shows(row.id, ctx)
                &&& row == store.contents()[row.id].envelope
                &&& before matches Some(b) ==> row.id < b
            },
    decreases order.len(),
{
    if order.len() > 0 && limit > 0 {
        let id = order.last();
        let rest = order.drop_last();
        lemma_page_rows(store, rest, ctx, before, limit);
        lemma_page_rows(store, rest, ctx, before, (limit - 1) as nat);
        let page = store.newest(order, ctx, before, limit);
        assert forall|i: int| 0 <= i < page.len() implies ({
            let row = #[trigger] page[i];
            &&& order.contains(row.id)
            &&& store.shows(row.id, ctx)
            &&& row == store.contents()[row.id].envelope
            &&& before matches Some(b) ==> row.id < b
        }) by {
            let skipped = (before matches Some(b) && id >= b) || !store.shows(id, ctx);
            if !skipped && i == 0 {
                assert(page[0] == store.contents()[id].envelope);
                assert(order[order.len() - 1] == id);
            } else {
                let row = page[i];
                assert(rest.contains(row.id));
                let k = choose|k: int| 0 <= k < rest.len() && rest[k] == row.id;
                assert(order[k] == row.id);
            }
        }
    }
}

/// A cursor above every id changes nothing.
proof fn lemma_free_cursor(
    store: MemoryEvidenceStore,
    order: Seq<u64>,
    ctx: EvidenceAccessContext,
    a: Option<u64>,
    b: Option<u64>,
    limit: nat,
)
    requires
        forall|k: int| 0 <= k < order.len() ==> (a matches Some(x) ==> #[trigger] order[k] < x),
        forall|k: int| 0 <= k < order.len() ==> (b matches Some(x) ==> #[trigger] order[k] < x),
    ensures
        store.newest(order, ctx, a, limit) == store.newest(order, ctx, b, limit),
    decreases order.len(),
{
    if order.len() > 0 && limit > 0 {
        let rest = order.drop_last();
        assert(order[order.len() - 1] == order.last());
        assert forall|k: int| 0 <= k < rest.len() implies (a matches Some(x) ==> #[trigger] rest[k]
            < x) && (b matches Some(x) ==> rest[k] < x) by {
            assert(rest[k] == order[k]);
        }
        lemma_free_cursor(store, rest, ctx, a, b, limit);
        lemma_free_cursor(store, rest, ctx, a, b, (limit - 1) as nat);
    }
}

/// Where a page with room for a row is empty, so is every page.
proof fn lemma_empty_page(
    store: MemoryEvidenceStore,
    order: Seq<u64>,
    ctx: EvidenceAccessContext,
    before: Option<u64>,
    some: nat,
    any: nat,
)
    requires
        some > 0,
        store.newest(order, ctx, before, some).len() == 0,
    ensures
        store.newest(order, ctx, before, any).len() == 0,
    decreases order.len(),
{
    if order.len() > 0 && any > 0 {
        let id = order.last();
        if (before matches Some(b) && id >= b) || !store.shows(id, ctx) {
            lemma_empty_page(store, order.drop_last(), ctx, before, some, any);
        } else {
            assert(store.newest(order, ctx, before, some)[0] == store.contents()[id].envelope);
        }
    }
}

proof fn lemma_pages_follow_on(
    store: MemoryEvidenceStore,
    order: Seq<u64>,
    ctx: EvidenceAccessContext,
    before: Option<u64>,
    n: nat,
    m: nat,
)
    requires
        store.well_formed(),
        ascending(order),
        store.newest(order, ctx, before, n).len() > 0,
    ensures
        store.newest(order, ctx, before, n + m) == store.newest(order, ctx, before, n)
            + store.newest(order, ctx, Some(store.newest(order, ctx, before, n).last().id), m),
    decreases order.len(),
{
    let id = order.last();
    let rest = order.drop_last();
    let page = store.newest(order, ctx, before, n);
    let cursor = Some(page.last().id);
    assert forall|k: int| 0 <= k < rest.len() implies #[trigger] rest[k] < id by {
        assert(rest[k] == order[k]);
    }
    assert(ascending(rest)) by {
        assert forall|i: int, j: int| 0 <= i < j < rest.len() implies rest[i] < rest[j] by {
            assert(order[i] < order[j]);
        }
    }
    lemma_page_rows(store, order, ctx, before, n);
    assert(order.contains(page[page.len() - 1].id));
    let k = choose|k: int| 0 <= k < order.len() && order[k] == page.last().id;
    assert(k < order.len() - 1 ==> order[k] < order[order.len() - 1]);
    assert(page.last().id <= id);
    // The last id is at or above the cursor, so the next page passes over it.
    assert(store.newest(order, ctx, cursor, m) =~= store.newest(rest, ctx, cursor, m));
    if (before matches Some(b) && id >= b) || !store.shows(id, ctx) {
        lemma_pages_follow_on(store, rest, ctx, before, n, m);
        assert(store.newest(order, ctx, before, n + m) == store.newest(rest, ctx, before, n + m));
    } else {
        let tail = store.newest(rest, ctx, before, (n - 1) as nat);
        let first = seq![store.contents()[id].envelope];
        assert(page == first + tail);
        assert(store.newest(order, ctx, before, n + m) == first + store.newest(
            rest,
            ctx,
            before,
            ((n - 1) as nat + m) as nat,
        ));
        if tail.len() > 0 {
            lemma_pages_follow_on(store, rest, ctx, before, (n - 1) as nat, m);
            assert(page.last() == tail.last());
            assert(first + (tail + store.newest(rest, ctx, cursor, m)) =~= page + store.newest(
                rest,
                ctx,
                cursor,
                m,
            ));
        } else {
            assert(page =~= first);
            assert(store.contents().contains_key(id));
            assert(page.last().id == id);
            assert forall|j: int| 0 <= j < rest.len() implies (before matches Some(x) ==> #[trigger]
            rest[j] < x) by {}
            lemma_free_cursor(store, rest, ctx, before, cursor, m);
            if n > 1 {
                lemma_empty_page(store, rest, ctx, before, (n - 1) as nat, ((n - 1) + m) as nat);
                lemma_empty_page(store, rest, ctx, before, (n - 1) as nat, m);
                assert(store.newest(rest, ctx, before, ((n - 1) + m) as nat) =~= store.newest(
                    rest,
                    ctx,
                    before,
                    m,
                ));
            }
        }
    }
}

/// Paging loses nothing and repeats nothing: where ids were given out in
/// ascending order, a page and the page behind its cursor are together the page
/// of both lengths; and a page shows only envelopes that its reader may see, below
/// the cursor that it was asked for.
pub proof fn law_pages_follow_on(
    store: MemoryEvidenceStore,
    ctx: EvidenceAccessContext,
    before: Option<u64>,
    n: nat,
    m: nat,
)
    requires
        store.well_formed(),
        ascending(store.inserted()),
        store.newest(store.inserted(), ctx, before, n).len() > 0,
    ensures
        ({
            let page = store.newest(store.inserted(), ctx, before, n);
            &&& store.newest(store.inserted(), ctx, before, n + m) == page + store.newest(
                store.inserted(),
                ctx,
                Some(page.last().id),
                m,
            )
            &&& page.len() <= n
            &&& forall|i: int|
                0 <= i < page.len() ==> store.shows((#[trigger] page[i]).id, ctx) && page[i]
                    == store.contents()[page[i].id].envelope && (before matches Some(b)
                    ==> page[i].id < b)
        }),
{
    lemma_pages_follow_on(store, store.inserted(), ctx, before, n, m);
    lemma_page_rows(store, store.inserted(), ctx, before, n);
}

/// Bytes are kept as they are where the evidence may be reduced, they were
/// captured whole and they fit; else none is kept.
pub proof fn law_which_bytes_are_retained(env: types::EnvelopeView, b: Seq<u8>, cap: nat)
    ensures
        retained(env, None, cap) is None,
        (env.compressibility is Reversible || env.compressibility is Aggressive)
            && env.backing_completeness is Complete && b.len() <= cap ==> retained(
            env,
            Some(b),
            cap,
        ) == Some(b),
        env.compressibility is Never || env.compressibility is LosslessOnly ==> retained(
            env,
            Some(b),
            cap,
        ) is None,
        env.backing_completeness is Truncated ==> retained(env, Some(b), cap) is None,
        b.len() > cap ==> retained(env, Some(b), cap) is None,
{
}

/// A reader that names a task acts for it, and one that names none is the
/// administrator of the session.
pub proof fn law_a_reader_acts_for_its_task(session_id: u64, workspace_id: u64, task: u64)
    ensures
        ({
            let c = EvidenceAccessContext::of(session_id, workspace_id, Some(task));
            &&& c.session_id == session_id
            &&& c.workspace_id == workspace_id
            &&& c.scope == EvidenceAccessScope::Task(TaskId(task))
        }),
        EvidenceAccessContext::of(session_id, workspace_id, None) == (EvidenceAccessContext {
            session_id,
            workspace_id,
            scope: EvidenceAccessScope::SessionAdmin,
        }),
{
}

/// An id that nothing is stored under is answered as unknown, by its number.
pub proof fn law_an_unknown_id_is_told(id: u64, ctx: EvidenceAccessContext, e: types::ErrorView)
    ensures
        scoped_read(Ok(None), id, ctx) == Err::<StoredView, types::ErrorView>(
            types::ErrorView::Malformed("unknown evidence id "@ + text::decimal(id as nat)),
        ),
        scoped_read(Err(e), id, ctx) == Err::<StoredView, types::ErrorView>(e),
{
}

/// A page shows the newest envelope first: the last one that was inserted, where
/// the reader may see it and it is below the cursor, and then the page of those
/// inserted before it.
pub proof fn law_the_newest_comes_first(
    store: MemoryEvidenceStore,
    order: Seq<u64>,
    id: u64,
    ctx: EvidenceAccessContext,
    before: Option<u64>,
    limit: nat,
)
    ensures
        store.newest(order, ctx, before, 0) == Seq::<types::EnvelopeView>::empty(),
        store.newest(Seq::empty(), ctx, before, limit) == Seq::<types::EnvelopeView>::empty(),
        ({
            let stored = store.contents()[id];
            let shown = store.contents().contains_key(id) && ctx.sees_envelope(stored.envelope) && (
            before is None || id < before->0);
            &&& shown ==> store.newest(order.push(id), ctx, before, limit + 1) == seq![
                stored.envelope,
            ] + store.newest(order, ctx, before, limit)
            &&& !shown ==> store.newest(order.push(id), ctx, before, limit) == store.newest(
                order,
                ctx,
                before,
                limit,
            )
        }),
{
    assert(order.push(id).drop_last() =~= order);
    if limit == 0 {
        assert(store.newest(order.push(id), ctx, before, limit) =~= Seq::empty());
    }
}

/// A denied reader is told whose evidence it is and who they are.
pub proof fn law_a_denial_names_both_sides(env: types::EnvelopeView, ctx: EvidenceAccessContext)
    ensures
        ({
            let owner = "evidence "@ + text::decimal(env.id as nat) + " belongs to session "@
                + text::decimal(env.session_id as nat) + " workspace "@ + text::decimal(
                env.workspace_id as nat,
            ) + " task "@ + (if env.task_id is None {
                "none"@
            } else {
                text::decimal(env.task_id->0 as nat)
            });
            let caller = "; caller is session "@ + text::decimal(ctx.session_id as nat)
                + " workspace "@ + text::decimal(ctx.workspace_id as nat) + " scope "@;
            &&& ctx.scope is SessionAdmin ==> denial_text(env, ctx) == owner + caller
                + "SessionAdmin"@
            &&& ctx.scope matches EvidenceAccessScope::Task(t) ==> denial_text(env, ctx) == owner
                + caller + ("Task(TaskId("@ + text::decimal(t.0 as nat) + "))"@)
        }),
{
    let owner = "evidence "@ + text::decimal(env.id as nat) + " belongs to session "@
        + text::decimal(env.session_id as nat) + " workspace "@ + text::decimal(
        env.workspace_id as nat,
    ) + " task "@ + (if env.task_id is None {
        "none"@
    } else {
        text::decimal(env.task_id->0 as nat)
    });
    let caller = "; caller is session "@ + text::decimal(ctx.session_id as nat) + " workspace "@
        + text::decimal(ctx.workspace_id as nat) + " scope "@;
    assert(denial_text(env, ctx) =~= owner + caller + scope_text(ctx.scope));
}

} // verus!
