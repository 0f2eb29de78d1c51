//! The decisions of the `deop` command: which operators lose their status,
//! what the command answers, and what it suggests.

use vstd::prelude::*;
use crate::command_info::{ArgumentInfo, ArgumentKind, PermissionInfo};

verus! {

/// An entry of the operator list.
#[derive(Debug)]
pub struct OperatorEntry {
    pub uuid: u128,
    pub name: String,
    pub level: u8,
    pub bypasses_player_limit: bool,
}

/// A player profile named by the command.
#[derive(Debug)]
pub struct GameProfile {
    pub id: u128,
    pub name: String,
}

/// The uuids of the operators, in list order.
pub open spec fn op_uuids(ops: Seq<OperatorEntry>) -> Seq<u128> {
    ops.map_values(|o: OperatorEntry| o.uuid)
}

/// The index of the first operator with uuid `id`, if any.
pub open spec fn first_index_of(uuids: Seq<u128>, id: u128) -> Option<int>
    decreases uuids.len(),
{
    if uuids.len() == 0 {
        None
    } else {
        match first_index_of(uuids.drop_last(), id) {
            Some(i) => Some(i),
            None => if uuids.last() == id {
                Some(uuids.len() - 1)
            } else {
                None
            },
        }
    }
}

/// The operator list after the first `k` profiles were handled, and the
/// indices of the profiles among them whose operator entry was removed: each
/// profile removes the first entry with its id, when there is one.
pub open spec fn spec_deop(ops: Seq<OperatorEntry>, ids: Seq<u128>, k: nat) -> (Seq<OperatorEntry>, Seq<int>)
    decreases k,
{
    if k == 0 {
        (ops, Seq::empty())
    } else {
        let (rest, removed) = spec_deop(ops, ids, (k - 1) as nat);
        match first_index_of(op_uuids(rest), ids[k - 1]) {
            Some(i) => (rest.remove(i), removed.push(k - 1)),
            None => (rest, removed),
        }
    }
}

/// The ids of the profiles.
pub open spec fn profile_ids(profiles: Seq<GameProfile>) -> Seq<u128> {
    profiles.map_values(|p: GameProfile| p.id)
}

/// The feedback the command sends for one revocation: the translation key
/// of the message and the name of the player it names.
#[derive(Debug)]
pub struct DeopFeedback {
    pub key: &'static str,
    pub name: String,
}

/// The translation key of the feedback for one revocation.
pub open spec fn deop_success_key() -> Seq<char> {
    "commands.deop.success"@
}

/// What the command answers when some operator lost the status.
#[derive(Debug)]
pub struct DeopOutcome {
    /// The indices of the profiles whose operator status was revoked, in
    /// order; each gets a feedback message and its player, if online, the
    /// lowest permission level.
    pub deopped: Vec<usize>,
    /// The feedback for each revocation, in the same order.
    pub feedback: Vec<DeopFeedback>,
    /// The command's result: the number of revocations.
    pub count: i32,
}

/// Why the command failed.
#[derive(Clone, Copy, Debug, PartialEq, Eq, Structural)]
pub enum DeopError {
    /// None of the profiles was an operator.
    NotOp,
}

/// Finds the first operator with uuid `id`.
pub fn position_of(ops: &Vec<OperatorEntry>, id: u128) -> (r: Option<usize>)
    ensures
        match r {
            Some(i) => first_index_of(op_uuids(ops@), id) == Some(i as int),
            None => first_index_of(op_uuids(ops@), id) is None,
        },
{
    let mut i: usize = 0;
    while i < ops.len()
        invariant
            i <= ops@.len(),
            first_index_of(op_uuids(ops@.subrange(0, i as int)), id) is None,
        decreases ops.len() - i,
    {
        let ghost prefix = ops@.subrange(0, i as int);
        let ghost next = ops@.subrange(0, i + 1);
        proof {
            assert(op_uuids(next).drop_last() == op_uuids(prefix));
        }
        if ops[i].uuid == id {
            proof {
                assert(first_index_of(op_uuids(next), id) == Some(i as int));
                assert(op_uuids(next) == op_uuids(ops@).subrange(0, i + 1));
                lemma_first_index_prefix(op_uuids(ops@), i + 1, id);
            }
            return Some(i);
        }
        i = i + 1;
    }
    assert(op_uuids(ops@.subrange(0, i as int)) == op_uuids(ops@));
    None
}

/// The first match is a match, and nothing before it matches.
proof fn lemma_first_index_of(uuids: Seq<u128>, id: u128)
    ensures
        first_index_of(uuids, id) matches Some(i) ==> 0 <= i < uuids.len() && uuids[i] == id
            && forall|k: int| 0 <= k < i ==> uuids[k] != id,
        first_index_of(uuids, id) is None ==> forall|k: int| 0 <= k < uuids.len() ==> uuids[k] != id,
    decreases uuids.len(),
{
    if uuids.len() > 0 {
        let d = uuids.drop_last();
        lemma_first_index_of(d, id);
        assert forall|k: int| 0 <= k < d.len() implies d[k] == uuids[k] by {}
    }
}

/// Extending the list past the first match keeps it the first match.
proof fn lemma_first_index_prefix(uuids: Seq<u128>, n: int, id: u128)
    requires
        0 <= n <= uuids.len(),
        first_index_of(uuids.subrange(0, n), id) is Some,
    ensures
        first_index_of(uuids, id) == first_index_of(uuids.subrange(0, n), id),
    decreases uuids.len() - n,
{
    if n < uuids.len() {
        let next = uuids.subrange(0, n + 1);
        assert(next.drop_last() == uuids.subrange(0, n));
        lemma_first_index_prefix(uuids, n + 1, id);
    } else {
        assert(uuids.subrange(0, n) == uuids);
    }
}

/// The `deop` command.
pub struct DeOpCommandExecutor;

/// The suggestions of the `deop` command.
pub struct DeOpSuggestionProvider;

impl DeOpCommandExecutor {
    /// The feedback for revoking the status of `profile`: the success
    /// message, naming the profile.
    pub fn success_feedback(profile: &GameProfile) -> (r: DeopFeedback)
        ensures
            r.key@ == deop_success_key(),
            r.name@ == profile.name@,
    {
        DeopFeedback { key: "commands.deop.success", name: profile.name.clone() }
    }

    /// Revokes the operator status of each profile in turn, removing from `ops`
    /// the first entry with the profile's id. Fails when no profile was an
    /// operator; otherwise gives back the profiles handled and their number.
    pub fn execute(ops: &mut Vec<OperatorEntry>, profiles: &Vec<GameProfile>) -> (r: Result<DeopOutcome, DeopError>)
        ensures
            ({
                let (after, removed) = spec_deop(old(ops)@, profile_ids(profiles@), profiles@.len());
                &&& final(ops)@ == after
                &&& match r {
                    Ok(outcome) => {
                        &&& removed.len() > 0
                        &&& outcome.deopped@.map_values(|i: usize| i as int) == removed
                        &&& outcome.feedback@.len() == removed.len()
                        &&& forall|j: int|
                            0 <= j < removed.len() ==> (#[trigger] outcome.feedback@[j]).key@ == deop_success_key()
                                && outcome.feedback@[j].name@ == profiles@[removed[j]].name@
                        &&& outcome.count == #[verifier::truncate] (removed.len() as i32)
                    },
                    Err(e) => e == DeopError::NotOp && removed.len() == 0,
                }
            }),
    {
        let ghost ids = profile_ids(profiles@);
        let mut deopped: Vec<usize> = Vec::new();
        let mut feedback: Vec<DeopFeedback> = Vec::new();
        let mut i: usize = 0;
        while i < profiles.len()
            invariant
                ids == profile_ids(profiles@),
                i <= profiles@.len(),
                ops@ == spec_deop(old(ops)@, ids, i as nat).0,
                deopped@.map_values(|i: usize| i as int) == spec_deop(old(ops)@, ids, i as nat).1,
                feedback@.len() == deopped@.len(),
                forall|j: int|
                    0 <= j < deopped@.len() ==> (#[trigger] feedback@[j]).key@ == deop_success_key()
                        && feedback@[j].name@ == profiles@[deopped@[j] as int].name@,
            decreases profiles.len() - i,
        {
            let ghost before = deopped@;
            proof {
                assert(ids[i as int] == profiles@[i as int].id);
            }
            match position_of(ops, profiles[i].id) {
                Some(op_index) => {
                    proof {
                        lemma_first_index_of(op_uuids(ops@), profiles@[i as int].id);
                    }
                    ops.remove(op_index);
                    deopped.push(i);
                    feedback.push(Self::success_feedback(&profiles[i]));
                    assert(deopped@.map_values(|i: usize| i as int) =~= before.map_values(|i: usize| i as int).push(i as int));
                },
                None => {},
            }
            i = i + 1;
        }
        if deopped.len() == 0 {
            Err(DeopError::NotOp)
        } else {
            let count: i32 = #[verifier::truncate] (deopped.len() as i32);
            proof {
                let removed = spec_deop(old(ops)@, ids, profiles@.len() as nat).1;
                assert forall|j: int| 0 <= j < removed.len() implies removed[j] == deopped@[j] as int by {
                    assert(deopped@.map_values(|i: usize| i as int)[j] == deopped@[j] as int);
                }
            }
            Ok(DeopOutcome { deopped, feedback, count })
        }
    }
}

impl DeOpSuggestionProvider {
    /// The names of the operators, in list order, offered as suggestions.
    pub fn suggest(ops: &Vec<OperatorEntry>) -> (r: Vec<String>)
        ensures
            r@.len() == ops@.len(),
            forall|i: int| 0 <= i < ops@.len() ==> #[trigger] r@[i]@ == ops@[i].name@,
    {
        let mut r: Vec<String> = Vec::new();
        let mut i: usize = 0;
        while i < ops.len()
            invariant
                i <= ops@.len(),
                r@.len() == i,
                forall|k: int| 0 <= k < i ==> #[trigger] r@[k]@ == ops@[k].name@,
            decreases ops.len() - i,
        {
            r.push(ops[i].name.clone());
            i = i + 1;
        }
        r
    }
}

/// No two operators share a uuid.
pub open spec fn uuids_distinct(ops: Seq<OperatorEntry>) -> bool {
    forall|i: int, j: int| 0 <= i < j < ops.len() ==> #[trigger] ops[i].uuid != #[trigger] ops[j].uuid
}

proof fn lemma_remove_index(rest: Seq<OperatorEntry>, i: int)
    requires
        0 <= i < rest.len(),
    ensures
        forall|o: int| 0 <= o < rest.len() - 1 ==> #[trigger] rest.remove(i)[o] == rest[if o < i { o } else { o + 1 }],
{
}

proof fn lemma_deop_shrinks(ops: Seq<OperatorEntry>, ids: Seq<u128>, k: nat)
    requires
        k <= ids.len(),
    ensures
        ({
            let (after, removed) = spec_deop(ops, ids, k);
            &&& after.len() + removed.len() == ops.len()
            &&& forall|o: int| 0 <= o < after.len() ==> ops.contains(#[trigger] after[o])
        }),
    decreases k,
{
    if k == 0 {
        assert forall|o: int| 0 <= o < ops.len() implies ops.contains(#[trigger] ops[o]) by {
            assert(ops[o] == ops[o]);
        }
    } else {
        lemma_deop_shrinks(ops, ids, (k - 1) as nat);
        let (rest, removed) = spec_deop(ops, ids, (k - 1) as nat);
        lemma_first_index_of(op_uuids(rest), ids[k - 1]);
        if let Some(i) = first_index_of(op_uuids(rest), ids[k - 1]) {
            let after = rest.remove(i);
            lemma_remove_index(rest, i);
            assert forall|o: int| 0 <= o < after.len() implies ops.contains(#[trigger] after[o]) by {
                let ro = if o < i { o } else { o + 1 };
                assert(after[o] == rest[ro]);
                assert(ops.contains(rest[ro]));
            }
        }
    }
}

proof fn lemma_deop_distinct(ops: Seq<OperatorEntry>, ids: Seq<u128>, k: nat)
    requires
        uuids_distinct(ops),
        k <= ids.len(),
    ensures
        ({
            let after = spec_deop(ops, ids, k).0;
            &&& uuids_distinct(after)
            &&& forall|p: int, o: int| 0 <= p < k && 0 <= o < after.len() ==> #[trigger] after[o].uuid != #[trigger] ids[p]
        }),
    decreases k,
{
    if k > 0 {
        lemma_deop_distinct(ops, ids, (k - 1) as nat);
        let rest = spec_deop(ops, ids, (k - 1) as nat).0;
        let id = ids[k - 1];
        lemma_first_index_of(op_uuids(rest), id);
        match first_index_of(op_uuids(rest), id) {
            Some(i) => {
                let after = rest.remove(i);
                lemma_remove_index(rest, i);
                assert(rest[i].uuid == id);
                assert forall|a: int, b: int| 0 <= a < b < after.len() implies #[trigger] after[a].uuid != #[trigger] after[b].uuid by {
                    let ra = if a < i { a } else { a + 1 };
                    let rb = if b < i { b } else { b + 1 };
                    assert(after[a] == rest[ra]);
                    assert(after[b] == rest[rb]);
                    assert(rest[ra].uuid != rest[rb].uuid);
                }
                assert forall|p: int, o: int| 0 <= p < k && 0 <= o < after.len() implies #[trigger] after[o].uuid != #[trigger] ids[p] by {
                    let ro = if o < i { o } else { o + 1 };
                    assert(after[o] == rest[ro]);
                    if p < k - 1 {
                        assert(rest[ro].uuid != ids[p]);
                    } else if ro < i {
                        assert(rest[ro].uuid != rest[i].uuid);
                    } else {
                        assert(rest[i].uuid != rest[ro].uuid);
                    }
                }
            },
            None => {
                assert forall|p: int, o: int| 0 <= p < k && 0 <= o < rest.len() implies #[trigger] rest[o].uuid != #[trigger] ids[p] by {
                    if p == k - 1 {
                        assert(op_uuids(rest)[o] == rest[o].uuid);
                    }
                }
            },
        }
    }
}

/// Revoking only removes entries: every entry removed is answered by
/// exactly one revocation, so the entries left and the revocations
/// together are as many as the entries before, and every entry left was an
/// operator before.
pub proof fn lemma_deop_keeps_other_entries(ops: Seq<OperatorEntry>, profiles: Seq<GameProfile>)
    ensures
        ({
            let (after, removed) = spec_deop(ops, profile_ids(profiles), profiles.len());
            &&& after.len() + removed.len() == ops.len()
            &&& forall|o: int| 0 <= o < after.len() ==> ops.contains(#[trigger] after[o])
        }),
{
    lemma_deop_shrinks(ops, profile_ids(profiles), profiles.len());
}

/// When no two operators share a uuid, none of the named players is an
/// operator after the command.
pub proof fn lemma_deop_revokes_named(ops: Seq<OperatorEntry>, profiles: Seq<GameProfile>)
    requires
        uuids_distinct(ops),
    ensures
        ({
            let after = spec_deop(ops, profile_ids(profiles), profiles.len()).0;
            forall|p: int, o: int| 0 <= p < profiles.len() && 0 <= o < after.len() ==> #[trigger] after[o].uuid != #[trigger] profiles[p].id
        }),
{
    let ids = profile_ids(profiles);
    lemma_deop_distinct(ops, ids, profiles.len());
    let after = spec_deop(ops, ids, profiles.len()).0;
    assert forall|p: int, o: int| 0 <= p < profiles.len() && 0 <= o < after.len() implies #[trigger] after[o].uuid != #[trigger] profiles[p].id by {
        assert(ids[p] == profiles[p].id);
    }
}

/// The entries of `ops` whose uuid is not among `ids`, in list order.
pub open spec fn keep_unnamed(ops: Seq<OperatorEntry>, ids: Seq<u128>) -> Seq<OperatorEntry>
    decreases ops.len(),
{
    if ops.len() == 0 {
        Seq::empty()
    } else if ids.contains(ops.last().uuid) {
        keep_unnamed(ops.drop_last(), ids)
    } else {
        keep_unnamed(ops.drop_last(), ids).push(ops.last())
    }
}

proof fn lemma_keep_congruent(ops: Seq<OperatorEntry>, a: Seq<u128>, b: Seq<u128>)
    requires
        forall|j: int| 0 <= j < ops.len() ==> a.contains(#[trigger] ops[j].uuid) == b.contains(ops[j].uuid),
    ensures
        keep_unnamed(ops, a) == keep_unnamed(ops, b),
    decreases ops.len(),
{
    if ops.len() > 0 {
        let d = ops.drop_last();
        assert forall|j: int| 0 <= j < d.len() implies a.contains(#[trigger] d[j].uuid) == b.contains(d[j].uuid) by {
            assert(d[j] == ops[j]);
        }
        lemma_keep_congruent(d, a, b);
        assert(a.contains(ops[ops.len() - 1].uuid) == b.contains(ops[ops.len() - 1].uuid));
    }
}

proof fn lemma_keep_sound(ops: Seq<OperatorEntry>, ids: Seq<u128>)
    ensures
        forall|i: int| 0 <= i < keep_unnamed(ops, ids).len() ==> ops.contains(#[trigger] keep_unnamed(ops, ids)[i]),
    decreases ops.len(),
{
    if ops.len() > 0 {
        let d = ops.drop_last();
        lemma_keep_sound(d, ids);
        let k = keep_unnamed(ops, ids);
        assert forall|i: int| 0 <= i < k.len() implies ops.contains(#[trigger] k[i]) by {
            if i < keep_unnamed(d, ids).len() {
                assert(k[i] == keep_unnamed(d, ids)[i]);
                let j = choose|j: int| 0 <= j < d.len() && d[j] == k[i];
                assert(ops[j] == d[j]);
            } else {
                assert(k[i] == ops[ops.len() - 1]);
            }
        }
    }
}

proof fn lemma_keep_complete(ops: Seq<OperatorEntry>, ids: Seq<u128>)
    ensures
        forall|j: int| 0 <= j < ops.len() && !ids.contains(#[trigger] ops[j].uuid) ==> keep_unnamed(ops, ids).contains(ops[j]),
    decreases ops.len(),
{
    if ops.len() > 0 {
        let d = ops.drop_last();
        lemma_keep_complete(d, ids);
        let k = keep_unnamed(ops, ids);
        assert forall|j: int| 0 <= j < ops.len() && !ids.contains(#[trigger] ops[j].uuid) implies k.contains(ops[j]) by {
            if j < d.len() {
                assert(d[j] == ops[j]);
                let kd = keep_unnamed(d, ids);
                let x = choose|x: int| 0 <= x < kd.len() && kd[x] == d[j];
                assert(k[x] == kd[x]);
            } else {
                assert(k[k.len() - 1] == ops[j]);
            }
        }
    }
}

proof fn lemma_keep_remove(ops: Seq<OperatorEntry>, ids: Seq<u128>, id: u128, i: int)
    requires
        uuids_distinct(ops),
        !ids.contains(id),
        0 <= i < keep_unnamed(ops, ids).len(),
        keep_unnamed(ops, ids)[i].uuid == id,
    ensures
        keep_unnamed(ops, ids.push(id)) == keep_unnamed(ops, ids).remove(i),
    decreases ops.len(),
{
    let d = ops.drop_last();
    let o = ops.last();
    let kd = keep_unnamed(d, ids);
    let ids2 = ids.push(id);
    assert(uuids_distinct(d)) by {
        assert forall|a: int, b: int| 0 <= a < b < d.len() implies #[trigger] d[a].uuid != #[trigger] d[b].uuid by {
            assert(d[a] == ops[a] && d[b] == ops[b]);
        }
    }
    assert(ids2.contains(o.uuid) <==> ids.contains(o.uuid) || o.uuid == id) by {
        if o.uuid == id {
            assert(ids2[ids.len() as int] == id);
        }
        if ids.contains(o.uuid) {
            let x = choose|x: int| 0 <= x < ids.len() && ids[x] == o.uuid;
            assert(ids2[x] == o.uuid);
        }
        if ids2.contains(o.uuid) {
            let x = choose|x: int| 0 <= x < ids2.len() && ids2[x] == o.uuid;
            if x < ids.len() {
                assert(ids[x] == o.uuid);
            }
        }
    }
    if ids.contains(o.uuid) {
        lemma_keep_remove(d, ids, id, i);
    } else if o.uuid == id {
        if i < kd.len() {
            lemma_keep_sound(d, ids);
            assert(kd[i] == keep_unnamed(ops, ids)[i]);
            let j = choose|j: int| 0 <= j < d.len() && d[j] == kd[i];
            assert(ops[j] == d[j]);
            assert(ops[j].uuid != ops[ops.len() - 1].uuid);
        }
        assert(keep_unnamed(ops, ids).remove(i) =~= kd);
        assert forall|j: int| 0 <= j < d.len() implies ids.contains(#[trigger] d[j].uuid) == ids2.contains(d[j].uuid) by {
            assert(d[j] == ops[j]);
            assert(ops[j].uuid != ops[ops.len() - 1].uuid);
            if ids2.contains(d[j].uuid) {
                let x = choose|x: int| 0 <= x < ids2.len() && ids2[x] == d[j].uuid;
                assert(ids[x] == d[j].uuid);
            }
            if ids.contains(d[j].uuid) {
                let x = choose|x: int| 0 <= x < ids.len() && ids[x] == d[j].uuid;
                assert(ids2[x] == d[j].uuid);
            }
        }
        lemma_keep_congruent(d, ids, ids2);
    } else {
        assert(i < kd.len());
        assert(kd[i] == keep_unnamed(ops, ids)[i]);
        lemma_keep_remove(d, ids, id, i);
        assert(kd.remove(i).push(o) =~= kd.push(o).remove(i));
    }
}

proof fn lemma_deop_is_keep(ops: Seq<OperatorEntry>, ids: Seq<u128>, k: nat)
    requires
        uuids_distinct(ops),
        k <= ids.len(),
    ensures
        spec_deop(ops, ids, k).0 == keep_unnamed(ops, ids.take(k as int)),
    decreases k,
{
    if k == 0 {
        assert forall|j: int| 0 <= j < ops.len() implies ids.take(0).contains(#[trigger] ops[j].uuid) == Seq::<u128>::empty().contains(ops[j].uuid) by {}
        lemma_keep_all(ops);
        lemma_keep_congruent(ops, ids.take(0), Seq::<u128>::empty());
    } else {
        lemma_deop_is_keep(ops, ids, (k - 1) as nat);
        let t = ids.take(k - 1);
        let id = ids[k - 1];
        assert(ids.take(k as int) == t.push(id));
        let rest = spec_deop(ops, ids, (k - 1) as nat).0;
        lemma_first_index_of(op_uuids(rest), id);
        if t.contains(id) {
            assert forall|j: int| 0 <= j < ops.len() implies t.contains(#[trigger] ops[j].uuid) == t.push(id).contains(ops[j].uuid) by {
                if t.push(id).contains(ops[j].uuid) {
                    let x = choose|x: int| 0 <= x < t.push(id).len() && t.push(id)[x] == ops[j].uuid;
                    if x < t.len() {
                        assert(t[x] == ops[j].uuid);
                    }
                }
                if t.contains(ops[j].uuid) {
                    let x = choose|x: int| 0 <= x < t.len() && t[x] == ops[j].uuid;
                    assert(t.push(id)[x] == ops[j].uuid);
                }
            }
            lemma_keep_congruent(ops, t, t.push(id));
            lemma_keep_sound(ops, t);
            if let Some(i) = first_index_of(op_uuids(rest), id) {
                assert(op_uuids(rest)[i] == rest[i].uuid);
                let j = choose|j: int| 0 <= j < ops.len() && ops[j] == rest[i];
                lemma_keep_excludes(ops, t);
                assert(false);
            }
        } else {
            match first_index_of(op_uuids(rest), id) {
                Some(i) => {
                    assert(op_uuids(rest)[i] == rest[i].uuid);
                    lemma_keep_remove(ops, t, id, i);
                },
                None => {
                    lemma_keep_complete(ops, t);
                    assert forall|j: int| 0 <= j < ops.len() implies t.contains(#[trigger] ops[j].uuid) == t.push(id).contains(ops[j].uuid) by {
                        if ops[j].uuid == id {
                            let x = choose|x: int| 0 <= x < rest.len() && rest[x] == ops[j];
                            assert(op_uuids(rest)[x] == rest[x].uuid);
                        }
                        if t.push(id).contains(ops[j].uuid) {
                            let x = choose|x: int| 0 <= x < t.push(id).len() && t.push(id)[x] == ops[j].uuid;
                            if x < t.len() {
                                assert(t[x] == ops[j].uuid);
                            }
                        }
                        if t.contains(ops[j].uuid) {
                            let x = choose|x: int| 0 <= x < t.len() && t[x] == ops[j].uuid;
                            assert(t.push(id)[x] == ops[j].uuid);
                        }
                    }
                    lemma_keep_congruent(ops, t, t.push(id));
                },
            }
        }
    }
}

proof fn lemma_keep_all(ops: Seq<OperatorEntry>)
    ensures
        keep_unnamed(ops, Seq::empty()) == ops,
    decreases ops.len(),
{
    if ops.len() > 0 {
        lemma_keep_all(ops.drop_last());
        assert(ops.drop_last().push(ops.last()) == ops);
    }
}

proof fn lemma_keep_excludes(ops: Seq<OperatorEntry>, ids: Seq<u128>)
    ensures
        forall|i: int| 0 <= i < keep_unnamed(ops, ids).len() ==> !ids.contains(#[trigger] keep_unnamed(ops, ids)[i].uuid),
    decreases ops.len(),
{
    if ops.len() > 0 {
        lemma_keep_excludes(ops.drop_last(), ids);
        let k = keep_unnamed(ops, ids);
        let kd = keep_unnamed(ops.drop_last(), ids);
        assert forall|i: int| 0 <= i < k.len() implies !ids.contains(#[trigger] k[i].uuid) by {
            if i < kd.len() {
                assert(k[i] == kd[i]);
            }
        }
    }
}

/// When no two operators share a uuid, the command removes the entries of
/// the named players and nothing else: the entries left are those of the
/// players not named, in the order they had.
pub proof fn lemma_deop_keeps_unnamed_in_order(ops: Seq<OperatorEntry>, profiles: Seq<GameProfile>)
    requires
        uuids_distinct(ops),
    ensures
        spec_deop(ops, profile_ids(profiles), profiles.len()).0 == keep_unnamed(ops, profile_ids(profiles)),
{
    let ids = profile_ids(profiles);
    lemma_deop_is_keep(ops, ids, profiles.len());
    assert(ids.take(profiles.len() as int) == ids);
}

/// The command's name.
pub fn command_name() -> (r: &'static str)
    ensures
        r@ == "deop"@,
{
    "deop"
}

/// The permission the command needs, which operators of level three have
/// by default.
pub fn permission() -> (r: PermissionInfo)
    ensures
        r.node@ == "minecraft:command.deop"@,
        r.description@ == "Revokes operator status from a player."@,
        r.default_op_level == 3,
{
    PermissionInfo {
        node: "minecraft:command.deop",
        description: "Revokes operator status from a player.",
        default_op_level: 3,
    }
}

/// The command's one argument: the player profiles whose status is revoked.
/// Its suggestions are those of `DeOpSuggestionProvider::suggest`, and the
/// command runs `DeOpCommandExecutor::execute` when the line ends after it.
pub fn targets_argument() -> (r: ArgumentInfo)
    ensures
        r.name@ == "targets"@,
        r.kind == ArgumentKind::GameProfiles,
        r.custom_suggestions,
        r.executes,
{
    ArgumentInfo { name: "targets", kind: ArgumentKind::GameProfiles, custom_suggestions: true, executes: true }
}

impl DeopError {
    /// The translation key of the error message.
    pub fn translation_key(&self) -> (r: &'static str)
        ensures
            r@ == "commands.deop.failed"@,
    {
        "commands.deop.failed"
    }
}

} // verus!
