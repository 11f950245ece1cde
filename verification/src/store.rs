//! The permission store.
//!
//! A store is an ordered list of grant entries, each an rc-file path with the
//! time it was last granted.  Every operation is of the read-entire-store,
//! filter, write-entire-store kind: it takes the current entries and returns
//! the entries to persist.  The intended invariant, established by every
//! mutating operation, is at most one entry per rc path.

use vstd::prelude::*;

verus! {

use crate::scope::bytes_eq;
use crate::scope::contains_path;
use crate::scope::copy_bytes;
use crate::scope::paths_view;

/// One remembered grant: which rc file, and when it was last granted.
pub struct GrantEntry {
    pub rc_path: Vec<u8>,
    pub granted_at: u64,
}

impl View for GrantEntry {
    type V = (Seq<u8>, u64);

    open spec fn view(&self) -> (Seq<u8>, u64) {
        (self.rc_path@, self.granted_at)
    }
}

/// The mathematical content of a store: the entries as (path, timestamp)
/// pairs, in order.
pub open spec fn store_view(s: Seq<GrantEntry>) -> Seq<(Seq<u8>, u64)> {
    s.map_values(|e: GrantEntry| e@)
}

/// What a permission lookup can say about a located rc file.
#[derive(Clone, Copy, Debug, PartialEq, Eq, Structural)]
pub enum Verdict {
    Allowed,
    Denied,
    Expired,
}

/// Why an rc file may not be loaded.
#[derive(Clone, Copy, Debug, PartialEq, Eq, Structural)]
pub enum AllowError {
    AllowDenied,
    AllowExpired,
}

/// Why a pruned entry was removed.
#[derive(Clone, Copy, Debug, PartialEq, Eq, Structural)]
pub enum PruneReason {
    Expired,
    Missing,
}

/// The timestamp of the first entry for `p`, if any.
pub open spec fn spec_find(s: Seq<(Seq<u8>, u64)>, p: Seq<u8>) -> Option<u64>
    decreases s.len(),
{
    if s.len() == 0 {
        None
    } else if s[0].0 == p {
        Some(s[0].1)
    } else {
        spec_find(s.drop_first(), p)
    }
}

/// A grant from `granted_at` has run out at `now`.
pub open spec fn spec_expired(granted_at: u64, now: u64, duration: u64) -> bool {
    now >= granted_at + duration
}

/// The verdict for rc path `p`: no entry is Denied, a run-out entry is
/// Expired, anything else is Allowed.
pub open spec fn spec_lookup(s: Seq<(Seq<u8>, u64)>, p: Seq<u8>, now: u64, duration: u64) -> Verdict {
    match spec_find(s, p) {
        None => Verdict::Denied,
        Some(ts) => if spec_expired(ts, now, duration) {
            Verdict::Expired
        } else {
            Verdict::Allowed
        },
    }
}

/// The store with every entry for `p` removed, order kept.
pub open spec fn spec_remove(s: Seq<(Seq<u8>, u64)>, p: Seq<u8>) -> Seq<(Seq<u8>, u64)>
    decreases s.len(),
{
    if s.len() == 0 {
        Seq::empty()
    } else if s[0].0 == p {
        spec_remove(s.drop_first(), p)
    } else {
        seq![s[0]] + spec_remove(s.drop_first(), p)
    }
}

/// An upsert: any old entry for `p` goes, one granted `now` is appended.
pub open spec fn spec_grant(s: Seq<(Seq<u8>, u64)>, p: Seq<u8>, now: u64) -> Seq<(Seq<u8>, u64)> {
    spec_remove(s, p).push((p, now))
}

/// Sliding renewal: like a grant, but only when an entry for `p` already
/// exists; never creates one.
pub open spec fn spec_renew(s: Seq<(Seq<u8>, u64)>, p: Seq<u8>, now: u64) -> Seq<(Seq<u8>, u64)> {
    if spec_find(s, p) is Some {
        spec_grant(s, p, now)
    } else {
        s
    }
}

/// A pruned entry survives when it is neither run out nor dangling.
pub open spec fn spec_keep(
    e: (Seq<u8>, u64),
    now: u64,
    duration: u64,
    existing: Seq<Seq<u8>>,
) -> bool {
    !spec_expired(e.1, now, duration) && existing.contains(e.0)
}

/// The entries surviving a prune, order kept.
pub open spec fn spec_prune_keep(
    s: Seq<(Seq<u8>, u64)>,
    now: u64,
    duration: u64,
    existing: Seq<Seq<u8>>,
) -> Seq<(Seq<u8>, u64)>
    decreases s.len(),
{
    if s.len() == 0 {
        Seq::empty()
    } else {
        (if spec_keep(s[0], now, duration, existing) {
            seq![s[0]]
        } else {
            Seq::empty()
        }) + spec_prune_keep(s.drop_first(), now, duration, existing)
    }
}

/// The removals a prune reports, in order, each with its reason; expiry is
/// checked before existence.
pub open spec fn spec_prune_removed(
    s: Seq<(Seq<u8>, u64)>,
    now: u64,
    duration: u64,
    existing: Seq<Seq<u8>>,
) -> Seq<(Seq<u8>, PruneReason)>
    decreases s.len(),
{
    if s.len() == 0 {
        Seq::empty()
    } else {
        (if spec_expired(s[0].1, now, duration) {
            seq![(s[0].0, PruneReason::Expired)]
        } else if !existing.contains(s[0].0) {
            seq![(s[0].0, PruneReason::Missing)]
        } else {
            Seq::empty()
        }) + spec_prune_removed(s.drop_first(), now, duration, existing)
    }
}

/// The store invariant: at most one entry per rc path.
pub open spec fn store_wf(s: Seq<(Seq<u8>, u64)>) -> bool
    decreases s.len(),
{
    if s.len() == 0 {
        true
    } else {
        spec_find(s.drop_first(), s[0].0) is None && store_wf(s.drop_first())
    }
}

/// Appending an entry moves the first match only when there was none.
pub proof fn lemma_find_push(s: Seq<(Seq<u8>, u64)>, e: (Seq<u8>, u64), p: Seq<u8>)
    ensures
        spec_find(s.push(e), p) == (if spec_find(s, p) is Some {
            spec_find(s, p)
        } else if e.0 == p {
            Some(e.1)
        } else {
            None
        }),
    decreases s.len(),
{
    reveal_with_fuel(spec_find, 2);
    if s.len() == 0 {
        assert(s.push(e)[0] == e);
        assert(s.push(e).drop_first() =~= Seq::<(Seq<u8>, u64)>::empty());
    } else {
        lemma_find_push(s.drop_first(), e, p);
        assert(s.push(e).drop_first() =~= s.drop_first().push(e));
    }
}

/// Removing `p` erases exactly the entries for `p` and no others.
pub proof fn lemma_remove_finds(s: Seq<(Seq<u8>, u64)>, p: Seq<u8>, q: Seq<u8>)
    ensures
        spec_find(spec_remove(s, p), q) == (if q == p {
            None::<u64>
        } else {
            spec_find(s, q)
        }),
    decreases s.len(),
{
    if s.len() > 0 {
        lemma_remove_finds(s.drop_first(), p, q);
        if s[0].0 != p {
            let rest = spec_remove(s.drop_first(), p);
            assert((seq![s[0]] + rest)[0] == s[0]);
            assert((seq![s[0]] + rest).drop_first() =~= rest);
        }
    }
}

/// Removing an absent path changes nothing.
pub proof fn lemma_revoke_absent(s: Seq<(Seq<u8>, u64)>, p: Seq<u8>)
    requires
        spec_find(s, p) is None,
    ensures
        spec_remove(s, p) == s,
    decreases s.len(),
{
    if s.len() > 0 {
        lemma_revoke_absent(s.drop_first(), p);
        assert(seq![s[0]] + s.drop_first() =~= s);
    }
}

/// Renewal of an ungranted rc path leaves the store exactly as it was; in
/// particular an empty store stays empty.
pub proof fn lemma_renew_never_creates(s: Seq<(Seq<u8>, u64)>, p: Seq<u8>, now: u64)
    ensures
        spec_find(s, p) is None ==> spec_renew(s, p, now) == s,
{
}

/// Renewal re-times exactly the renewed entry: every other path reads as
/// before, and `p` reads as `now` precisely when it was present.
pub proof fn lemma_renew_finds(s: Seq<(Seq<u8>, u64)>, p: Seq<u8>, now: u64, q: Seq<u8>)
    ensures
        spec_find(spec_renew(s, p, now), q) == (if spec_find(s, p) is None || q != p {
            spec_find(s, q)
        } else {
            Some(now)
        }),
{
    if spec_find(s, p) is Some {
        lemma_remove_finds(s, p, q);
        lemma_find_push(spec_remove(s, p), (p, now), q);
    }
}

/// A store that respects the invariant still does with a new, unique entry
/// at the end.
pub proof fn lemma_wf_push(s: Seq<(Seq<u8>, u64)>, e: (Seq<u8>, u64))
    requires
        store_wf(s),
        spec_find(s, e.0) is None,
    ensures
        store_wf(s.push(e)),
    decreases s.len(),
{
    reveal_with_fuel(spec_find, 2);
    reveal_with_fuel(store_wf, 2);
    if s.len() == 0 {
        assert(s.push(e)[0] == e);
        assert(s.push(e).drop_first() =~= Seq::<(Seq<u8>, u64)>::empty());
    } else {
        lemma_wf_push(s.drop_first(), e);
        assert(s.push(e).drop_first() =~= s.drop_first().push(e));
        lemma_find_push(s.drop_first(), e, s[0].0);
        assert(s.push(e)[0] == s[0]);
    }
}

/// Removal preserves the store invariant.
pub proof fn lemma_remove_wf(s: Seq<(Seq<u8>, u64)>, p: Seq<u8>)
    requires
        store_wf(s),
    ensures
        store_wf(spec_remove(s, p)),
    decreases s.len(),
{
    if s.len() > 0 {
        lemma_remove_wf(s.drop_first(), p);
        if s[0].0 != p {
            let rest = spec_remove(s.drop_first(), p);
            lemma_remove_finds(s.drop_first(), p, s[0].0);
            assert((seq![s[0]] + rest)[0] == s[0]);
            assert((seq![s[0]] + rest).drop_first() =~= rest);
        }
    }
}

/// Expiry is monotone in the clock: after a grant at `t`, the verdict is
/// Allowed strictly before `t + duration` and Expired from then on.
pub proof fn lemma_expiry_monotonic(
    s: Seq<(Seq<u8>, u64)>,
    rc: Seq<u8>,
    t: u64,
    now: u64,
    duration: u64,
)
    ensures
        now < t + duration ==> spec_lookup(spec_grant(s, rc, t), rc, now, duration)
            == Verdict::Allowed,
        now >= t + duration ==> spec_lookup(spec_grant(s, rc, t), rc, now, duration)
            == Verdict::Expired,
{
    lemma_remove_finds(s, rc, rc);
    lemma_find_push(spec_remove(s, rc), (rc, t), rc);
}

/// A path absent from a store is still absent after a prune.
pub proof fn lemma_prune_preserves_absent(
    s: Seq<(Seq<u8>, u64)>,
    now: u64,
    duration: u64,
    existing: Seq<Seq<u8>>,
    q: Seq<u8>,
)
    requires
        spec_find(s, q) is None,
    ensures
        spec_find(spec_prune_keep(s, now, duration, existing), q) is None,
    decreases s.len(),
{
    if s.len() > 0 {
        lemma_prune_preserves_absent(s.drop_first(), now, duration, existing, q);
        if spec_keep(s[0], now, duration, existing) {
            let rest = spec_prune_keep(s.drop_first(), now, duration, existing);
            assert((seq![s[0]] + rest)[0] == s[0]);
            assert((seq![s[0]] + rest).drop_first() =~= rest);
        } else {
            assert(Seq::<(Seq<u8>, u64)>::empty() + spec_prune_keep(
                s.drop_first(),
                now,
                duration,
                existing,
            ) =~= spec_prune_keep(s.drop_first(), now, duration, existing));
        }
    }
}

/// Pruning preserves the store invariant.
pub proof fn lemma_prune_wf(s: Seq<(Seq<u8>, u64)>, now: u64, duration: u64, existing: Seq<Seq<u8>>)
    requires
        store_wf(s),
    ensures
        store_wf(spec_prune_keep(s, now, duration, existing)),
    decreases s.len(),
{
    if s.len() > 0 {
        lemma_prune_wf(s.drop_first(), now, duration, existing);
        let rest = spec_prune_keep(s.drop_first(), now, duration, existing);
        if spec_keep(s[0], now, duration, existing) {
            lemma_prune_preserves_absent(s.drop_first(), now, duration, existing, s[0].0);
            assert((seq![s[0]] + rest)[0] == s[0]);
            assert((seq![s[0]] + rest).drop_first() =~= rest);
        } else {
            assert(Seq::<(Seq<u8>, u64)>::empty() + rest =~= rest);
        }
    }
}

/// Pruning an already-pruned store removes nothing and changes nothing.
pub proof fn lemma_prune_idempotent(
    s: Seq<(Seq<u8>, u64)>,
    now: u64,
    duration: u64,
    existing: Seq<Seq<u8>>,
)
    ensures
        spec_prune_keep(spec_prune_keep(s, now, duration, existing), now, duration, existing)
            == spec_prune_keep(s, now, duration, existing),
        spec_prune_removed(spec_prune_keep(s, now, duration, existing), now, duration, existing)
            == Seq::<(Seq<u8>, PruneReason)>::empty(),
    decreases s.len(),
{
    if s.len() > 0 {
        lemma_prune_idempotent(s.drop_first(), now, duration, existing);
        let rest = spec_prune_keep(s.drop_first(), now, duration, existing);
        if spec_keep(s[0], now, duration, existing) {
            assert((seq![s[0]] + rest)[0] == s[0]);
            assert((seq![s[0]] + rest).drop_first() =~= rest);
            assert(seq![s[0]] + spec_prune_keep(rest, now, duration, existing) =~= spec_prune_keep(
                seq![s[0]] + rest,
                now,
                duration,
                existing,
            ));
            assert(Seq::<(Seq<u8>, PruneReason)>::empty() + spec_prune_removed(
                rest,
                now,
                duration,
                existing,
            ) =~= spec_prune_removed(rest, now, duration, existing));
        } else {
            assert(Seq::<(Seq<u8>, u64)>::empty() + rest =~= rest);
        }
    }
}

/// Pushing an entry appends its view.
pub proof fn lemma_store_view_push(s: Seq<GrantEntry>, e: GrantEntry)
    ensures
        store_view(s.push(e)) == store_view(s).push(e@),
{
    assert(store_view(s.push(e)) =~= store_view(s).push(e@));
}

/// Pushing a removal report appends its view.
pub proof fn lemma_removals_view_push(s: Seq<PruneRemoval>, x: PruneRemoval)
    ensures
        removals_view(s.push(x)) == removals_view(s).push(x@),
{
    assert(removals_view(s.push(x)) =~= removals_view(s).push(x@));
}

/// The verdict for `rc` against the given entries at time `now`.
pub fn lookup(list: &Vec<GrantEntry>, rc: &Vec<u8>, now: u64, duration: u64) -> (v: Verdict)
    ensures
        v == spec_lookup(store_view(list@), rc@, now, duration),
{
    let ghost s = store_view(list@);
    let mut i: usize = 0;
    proof {
        assert(s.subrange(0, s.len() as int) =~= s);
    }
    while i < list.len()
        invariant
            i <= list@.len(),
            s == store_view(list@),
            spec_find(s, rc@) == spec_find(s.subrange(i as int, s.len() as int), rc@),
        decreases list@.len() - i,
    {
        let ghost suffix = s.subrange(i as int, s.len() as int);
        proof {
            assert(suffix[0] == s[i as int]);
            assert(suffix.drop_first() =~= s.subrange(i + 1, s.len() as int));
        }
        if bytes_eq(&list[i].rc_path, rc) {
            let ts = list[i].granted_at;
            if now >= ts && now - ts >= duration {
                return Verdict::Expired;
            } else {
                return Verdict::Allowed;
            }
        }
        i += 1;
    }
    proof {
        assert(s.subrange(i as int, s.len() as int).len() == 0);
    }
    Verdict::Denied
}

/// Whether the store holds an entry for `rc`.
fn contains_rc(list: &Vec<GrantEntry>, rc: &Vec<u8>) -> (r: bool)
    ensures
        r == (spec_find(store_view(list@), rc@) is Some),
{
    let ghost s = store_view(list@);
    let mut i: usize = 0;
    proof {
        assert(s.subrange(0, s.len() as int) =~= s);
    }
    while i < list.len()
        invariant
            i <= list@.len(),
            s == store_view(list@),
            spec_find(s, rc@) == spec_find(s.subrange(i as int, s.len() as int), rc@),
        decreases list@.len() - i,
    {
        let ghost suffix = s.subrange(i as int, s.len() as int);
        proof {
            assert(suffix[0] == s[i as int]);
            assert(suffix.drop_first() =~= s.subrange(i + 1, s.len() as int));
        }
        if bytes_eq(&list[i].rc_path, rc) {
            return true;
        }
        i += 1;
    }
    proof {
        assert(s.subrange(i as int, s.len() as int).len() == 0);
    }
    false
}

/// The allow check for an optional located rc file: no rc file is fine, an
/// allowed one is fine, anything else names the error.
pub open spec fn spec_check_allow(
    s: Seq<(Seq<u8>, u64)>,
    rc: Option<Seq<u8>>,
    now: u64,
    duration: u64,
) -> Option<AllowError> {
    match rc {
        None => None,
        Some(p) => match spec_lookup(s, p, now, duration) {
            Verdict::Allowed => None,
            Verdict::Denied => Some(AllowError::AllowDenied),
            Verdict::Expired => Some(AllowError::AllowExpired),
        },
    }
}

/// The view of an optional borrowed path.
pub open spec fn opt_ref_view(p: Option<&Vec<u8>>) -> Option<Seq<u8>> {
    match p {
        Some(q) => Some(q@),
        None => None,
    }
}

/// Why the located rc file may not be loaded now, if it may not.
pub fn check_allow(list: &Vec<GrantEntry>, rc: Option<&Vec<u8>>, now: u64, duration: u64) -> (r:
    Option<AllowError>)
    ensures
        r == spec_check_allow(store_view(list@), opt_ref_view(rc), now, duration),
{
    match rc {
        None => None,
        Some(p) => match lookup(list, p, now, duration) {
            Verdict::Allowed => None,
            Verdict::Denied => Some(AllowError::AllowDenied),
            Verdict::Expired => Some(AllowError::AllowExpired),
        },
    }
}

/// The entries of `list` with every entry for `rc` left out.
pub fn revoke(list: &Vec<GrantEntry>, rc: &Vec<u8>) -> (r: Vec<GrantEntry>)
    ensures
        store_view(r@) == spec_remove(store_view(list@), rc@),
        store_wf(store_view(list@)) ==> store_wf(store_view(r@)),
{
    let ghost s = store_view(list@);
    let mut out: Vec<GrantEntry> = Vec::new();
    let mut i: usize = 0;
    proof {
        assert(s.subrange(0, s.len() as int) =~= s);
        assert(store_view(out@) + spec_remove(s, rc@) =~= spec_remove(s, rc@));
    }
    while i < list.len()
        invariant
            i <= list@.len(),
            s == store_view(list@),
            spec_remove(s, rc@) == store_view(out@) + spec_remove(
                s.subrange(i as int, s.len() as int),
                rc@,
            ),
        decreases list@.len() - i,
    {
        let ghost suffix = s.subrange(i as int, s.len() as int);
        proof {
            assert(suffix[0] == s[i as int]);
            assert(suffix.drop_first() =~= s.subrange(i + 1, s.len() as int));
        }
        if !bytes_eq(&list[i].rc_path, rc) {
            let entry = GrantEntry {
                rc_path: copy_bytes(&list[i].rc_path),
                granted_at: list[i].granted_at,
            };
            proof {
                assert(entry@ == s[i as int]);
            }
            let ghost prev = out@;
            out.push(entry);
            proof {
                lemma_store_view_push(prev, entry);
                assert(store_view(prev).push(s[i as int]) + spec_remove(
                    s.subrange(i + 1, s.len() as int),
                    rc@,
                ) =~= store_view(prev) + (seq![s[i as int]] + spec_remove(
                    s.subrange(i + 1, s.len() as int),
                    rc@,
                )));
            }
        }
        i += 1;
    }
    proof {
        assert(s.subrange(i as int, s.len() as int).len() == 0);
        assert(store_view(out@) + spec_remove(s.subrange(i as int, s.len() as int), rc@)
            =~= store_view(out@));
        if store_wf(s) {
            lemma_remove_wf(s, rc@);
        }
    }
    out
}

/// Grant (upsert): the entries with any old entry for `rc` removed and one
/// granted `now` appended.
pub fn grant(list: &Vec<GrantEntry>, rc: &Vec<u8>, now: u64) -> (r: Vec<GrantEntry>)
    ensures
        store_view(r@) == spec_grant(store_view(list@), rc@, now),
        store_wf(store_view(list@)) ==> store_wf(store_view(r@)),
{
    let mut out = revoke(list, rc);
    let entry = GrantEntry { rc_path: copy_bytes(rc), granted_at: now };
    let ghost prev = out@;
    out.push(entry);
    proof {
        lemma_store_view_push(prev, entry);
        assert(entry@ == (rc@, now));
        if store_wf(store_view(list@)) {
            lemma_remove_wf(store_view(list@), rc@);
            lemma_remove_finds(store_view(list@), rc@, rc@);
            lemma_wf_push(spec_remove(store_view(list@), rc@), (rc@, now));
        }
    }
    out
}

/// Sliding renewal: re-time the entry for `rc` to `now` when one exists;
/// never creates one.
pub fn renew_if_present(list: &Vec<GrantEntry>, rc: &Vec<u8>, now: u64) -> (r: Vec<GrantEntry>)
    ensures
        store_view(r@) == spec_renew(store_view(list@), rc@, now),
        store_wf(store_view(list@)) ==> store_wf(store_view(r@)),
{
    if contains_rc(list, rc) {
        grant(list, rc, now)
    } else {
        let mut out: Vec<GrantEntry> = Vec::new();
        let mut i: usize = 0;
        while i < list.len()
            invariant
                i <= list@.len(),
                store_view(out@) == store_view(list@).subrange(0, i as int),
            decreases list@.len() - i,
        {
            let entry = GrantEntry {
                rc_path: copy_bytes(&list[i].rc_path),
                granted_at: list[i].granted_at,
            };
            proof {
                assert(entry@ == store_view(list@)[i as int]);
            }
            let ghost prev = out@;
            out.push(entry);
            proof {
                lemma_store_view_push(prev, entry);
                assert(store_view(list@).subrange(0, i as int).push(store_view(list@)[i as int])
                    =~= store_view(list@).subrange(0, i + 1));
            }
            i += 1;
        }
        proof {
            assert(store_view(list@).subrange(0, i as int) =~= store_view(list@));
        }
        out
    }
}

/// What a prune reports about one removed entry.
pub struct PruneRemoval {
    pub rc_path: Vec<u8>,
    pub reason: PruneReason,
}

impl View for PruneRemoval {
    type V = (Seq<u8>, PruneReason);

    open spec fn view(&self) -> (Seq<u8>, PruneReason) {
        (self.rc_path@, self.reason)
    }
}

/// The views of reported removals, in order.
pub open spec fn removals_view(s: Seq<PruneRemoval>) -> Seq<(Seq<u8>, PruneReason)> {
    s.map_values(|x: PruneRemoval| x@)
}

/// Garbage collection: drop every entry that has run out or whose rc path no
/// longer occurs on disk (`existing` lists the paths the caller found to
/// exist), and report each removal with its reason.
pub fn prune(list: &Vec<GrantEntry>, now: u64, duration: u64, existing: &Vec<Vec<u8>>) -> (r: (
    Vec<GrantEntry>,
    Vec<PruneRemoval>,
))
    ensures
        store_view(r.0@) == spec_prune_keep(store_view(list@), now, duration, paths_view(
            existing@,
        )),
        removals_view(r.1@) == spec_prune_removed(store_view(list@), now, duration, paths_view(
            existing@,
        )),
        store_wf(store_view(list@)) ==> store_wf(store_view(r.0@)),
{
    let ghost s = store_view(list@);
    let ghost ex = paths_view(existing@);
    let mut kept: Vec<GrantEntry> = Vec::new();
    let mut removed: Vec<PruneRemoval> = Vec::new();
    let mut i: usize = 0;
    proof {
        assert(s.subrange(0, s.len() as int) =~= s);
        assert(store_view(kept@) + spec_prune_keep(s, now, duration, ex) =~= spec_prune_keep(
            s,
            now,
            duration,
            ex,
        ));
        assert(removals_view(removed@) + spec_prune_removed(s, now, duration, ex)
            =~= spec_prune_removed(s, now, duration, ex));
    }
    while i < list.len()
        invariant
            i <= list@.len(),
            s == store_view(list@),
            ex == paths_view(existing@),
            spec_prune_keep(s, now, duration, ex) == store_view(kept@) + spec_prune_keep(
                s.subrange(i as int, s.len() as int),
                now,
                duration,
                ex,
            ),
            spec_prune_removed(s, now, duration, ex) == removals_view(removed@)
                + spec_prune_removed(s.subrange(i as int, s.len() as int), now, duration, ex),
        decreases list@.len() - i,
    {
        let ghost suffix = s.subrange(i as int, s.len() as int);
        proof {
            assert(suffix[0] == s[i as int]);
            assert(suffix.drop_first() =~= s.subrange(i + 1, s.len() as int));
        }
        let ts = list[i].granted_at;
        let expired = now >= ts && now - ts >= duration;
        let missing = if expired {
            false
        } else {
            !contains_path(existing, &list[i].rc_path)
        };
        if expired || missing {
            let reason = if expired {
                PruneReason::Expired
            } else {
                PruneReason::Missing
            };
            let removal = PruneRemoval { rc_path: copy_bytes(&list[i].rc_path), reason };
            proof {
                assert(removal@ == (s[i as int].0, reason));
            }
            let ghost prev = removed@;
            removed.push(removal);
            proof {
                lemma_removals_view_push(prev, removal);
                assert(removals_view(prev).push((s[i as int].0, reason)) + spec_prune_removed(
                    suffix.drop_first(),
                    now,
                    duration,
                    ex,
                ) =~= removals_view(prev) + (seq![(s[i as int].0, reason)] + spec_prune_removed(
                    suffix.drop_first(),
                    now,
                    duration,
                    ex,
                )));
                assert(Seq::<(Seq<u8>, u64)>::empty() + spec_prune_keep(
                    suffix.drop_first(),
                    now,
                    duration,
                    ex,
                ) =~= spec_prune_keep(suffix.drop_first(), now, duration, ex));
            }
        } else {
            let entry = GrantEntry {
                rc_path: copy_bytes(&list[i].rc_path),
                granted_at: list[i].granted_at,
            };
            proof {
                assert(entry@ == s[i as int]);
            }
            let ghost prev = kept@;
            kept.push(entry);
            proof {
                lemma_store_view_push(prev, entry);
                assert(store_view(prev).push(s[i as int]) + spec_prune_keep(
                    suffix.drop_first(),
                    now,
                    duration,
                    ex,
                ) =~= store_view(prev) + (seq![s[i as int]] + spec_prune_keep(
                    suffix.drop_first(),
                    now,
                    duration,
                    ex,
                )));
                assert(Seq::<(Seq<u8>, PruneReason)>::empty() + spec_prune_removed(
                    suffix.drop_first(),
                    now,
                    duration,
                    ex,
                ) =~= spec_prune_removed(suffix.drop_first(), now, duration, ex));
            }
        }
        i += 1;
    }
    proof {
        assert(s.subrange(i as int, s.len() as int).len() == 0);
        assert(store_view(kept@) + spec_prune_keep(
            s.subrange(i as int, s.len() as int),
            now,
            duration,
            ex,
        ) =~= store_view(kept@));
        assert(removals_view(removed@) + spec_prune_removed(
            s.subrange(i as int, s.len() as int),
            now,
            duration,
            ex,
        ) =~= removals_view(removed@));
        if store_wf(s) {
            lemma_prune_wf(s, now, duration, ex);
        }
    }
    (kept, removed)
}

} // verus!
