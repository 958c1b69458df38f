//! Resolving references to commits: the choice among what a remote
//! advertises, and the cache of what was resolved.

use vstd::prelude::*;
use vstd::hash_map::StringHashMap;
use crate::action::{remote_url, ActionRef, Reference};
use crate::text::{chars_of, ends_in, ends_with};

verus! {

/// One name that a remote advertises, with the commit it points to.
pub struct Advertised {
    pub name: Seq<char>,
    pub oid: Seq<char>,
}

/// One reference of a remote: its full name, such as `refs/tags/v4`, and the
/// commit it points to, in hexadecimal.
#[derive(Debug)]
pub struct RemoteHead {
    pub name: String,
    pub oid: String,
}

impl View for RemoteHead {
    type V = Advertised;

    open spec fn view(&self) -> Advertised {
        Advertised { name: self.name@, oid: self.oid@ }
    }
}

/// What asking a remote for its references gave.
#[derive(Debug)]
pub enum Listing {
    /// The references of the remote, in the order in which it lists them.
    Heads(Vec<RemoteHead>),
    /// The remote could not be reached.
    Unreachable,
}

/// Why a reference was not resolved.
#[derive(Clone, Copy, Debug, PartialEq, Eq, Structural)]
pub enum ResolveError {
    /// The remote advertises no reference that matches.
    ReferenceNotFound,
    /// The remote could not be reached.
    NetworkError,
}

/// What `heads` stand for.
pub open spec fn advertised(heads: Seq<RemoteHead>) -> Seq<Advertised> {
    heads.map_values(|h: RemoteHead| h@)
}

impl Listing {
    /// The references that the remote advertised, if it was reached.
    pub open spec fn heads(&self) -> Option<Seq<Advertised>> {
        match self {
            Listing::Heads(heads) => Some(advertised(heads@)),
            Listing::Unreachable => None,
        }
    }
}

/// The name under which a remote advertises the tag `locator`.
pub open spec fn tag_name(locator: Seq<char>) -> Seq<char> {
    "refs/tags/"@ + locator
}

/// The name under which a remote advertises the branch `locator`.
pub open spec fn branch_name(locator: Seq<char>) -> Seq<char> {
    "refs/heads/"@ + locator
}

/// The position at or after `from` of the first reference called `name`, or
/// the number of references if there is none.
pub open spec fn first_named(heads: Seq<Advertised>, name: Seq<char>, from: int) -> int
    decreases heads.len() - from,
{
    if 0 <= from < heads.len() && heads[from].name != name {
        first_named(heads, name, from + 1)
    } else {
        from
    }
}

/// The position at or after `from` of the first reference whose name ends
/// with `suffix`, or the number of references if there is none.
pub open spec fn first_ending(heads: Seq<Advertised>, suffix: Seq<char>, from: int) -> int
    decreases heads.len() - from,
{
    if 0 <= from < heads.len() && !ends_with(heads[from].name, suffix) {
        first_ending(heads, suffix, from + 1)
    } else {
        from
    }
}

/// The commit that `locator` is resolved to among `heads`.
///
/// An exact name wins: the tag of that name first, then the branch, then
/// a reference called `locator` as it stands. Without one, the first
/// reference in the remote's order whose name ends with `locator` is taken,
/// whatever it is: a guess, and the commit may be that of an unrelated
/// reference.
pub open spec fn selected(heads: Seq<Advertised>, locator: Seq<char>) -> Option<Seq<char>> {
    let tag = first_named(heads, tag_name(locator), 0);
    let branch = first_named(heads, branch_name(locator), 0);
    let plain = first_named(heads, locator, 0);
    let guess = first_ending(heads, locator, 0);
    if tag < heads.len() {
        Some(heads[tag].oid)
    } else if branch < heads.len() {
        Some(heads[branch].oid)
    } else if plain < heads.len() {
        Some(heads[plain].oid)
    } else if guess < heads.len() {
        Some(heads[guess].oid)
    } else {
        None
    }
}

/// `first_named` stops at a reference of that name, or at the end.
pub proof fn lemma_first_named(heads: Seq<Advertised>, name: Seq<char>, from: int)
    requires
        0 <= from <= heads.len(),
    ensures
        from <= first_named(heads, name, from) <= heads.len(),
        first_named(heads, name, from) < heads.len() ==> heads[first_named(
            heads,
            name,
            from,
        )].name == name,
        forall|i: int| from <= i < first_named(heads, name, from) ==> (#[trigger] heads[i]).name != name,
    decreases heads.len() - from,
{
    if from < heads.len() && heads[from].name != name {
        lemma_first_named(heads, name, from + 1);
    }
}

/// `first_ending` stops at a reference whose name ends with the suffix, or at
/// the end.
pub proof fn lemma_first_ending(heads: Seq<Advertised>, suffix: Seq<char>, from: int)
    requires
        0 <= from <= heads.len(),
    ensures
        from <= first_ending(heads, suffix, from) <= heads.len(),
        first_ending(heads, suffix, from) < heads.len() ==> ends_with(
            heads[first_ending(heads, suffix, from)].name,
            suffix,
        ),
        forall|i: int|
            from <= i < first_ending(heads, suffix, from) ==> !ends_with(
                (#[trigger] heads[i]).name,
                suffix,
            ),
    decreases heads.len() - from,
{
    if from < heads.len() && !ends_with(heads[from].name, suffix) {
        lemma_first_ending(heads, suffix, from + 1);
    }
}

/// A commit is found if and only if the remote advertises a name that ends
/// with the locator, and the commit found is that of such a name: no more
/// is owed where the name is a guess.
pub proof fn lemma_selected(heads: Seq<Advertised>, locator: Seq<char>)
    ensures
        match selected(heads, locator) {
            Some(oid) => exists|i: int|
                0 <= i < heads.len() && ends_with((#[trigger] heads[i]).name, locator)
                    && heads[i].oid == oid,
            None => forall|i: int|
                0 <= i < heads.len() ==> !ends_with((#[trigger] heads[i]).name, locator),
        },
{
    let tag = first_named(heads, tag_name(locator), 0);
    let branch = first_named(heads, branch_name(locator), 0);
    let plain = first_named(heads, locator, 0);
    let guess = first_ending(heads, locator, 0);
    lemma_first_named(heads, tag_name(locator), 0);
    lemma_first_named(heads, branch_name(locator), 0);
    lemma_first_named(heads, locator, 0);
    lemma_first_ending(heads, locator, 0);
    let n = locator.len() as int;
    let t = tag_name(locator);
    let b = branch_name(locator);
    assert(t.subrange(t.len() - n, t.len() as int) =~= locator);
    assert(b.subrange(b.len() - n, b.len() as int) =~= locator);
    assert(locator.subrange(0, n) =~= locator);
    if tag < heads.len() {
        assert(ends_with(heads[tag].name, locator));
    } else if branch < heads.len() {
        assert(ends_with(heads[branch].name, locator));
    } else if plain < heads.len() {
        assert(ends_with(heads[plain].name, locator));
    } else if guess < heads.len() {
        assert(ends_with(heads[guess].name, locator));
    }
}

/// An exact name is preferred to a guess, a tag to a branch, and a branch
/// to a reference that is called as the locator stands: the commit found is
/// that of the first tag of the name if there is one, else that of the
/// first branch, else that of the first reference so called.
pub proof fn lemma_selected_prefers(heads: Seq<Advertised>, locator: Seq<char>, i: int)
    requires
        0 <= i < heads.len(),
    ensures
        heads[i].name == tag_name(locator) ==> selected(heads, locator) == Some(
            heads[first_named(heads, tag_name(locator), 0)].oid,
        ),
        heads[i].name == branch_name(locator) && (forall|j: int|
            0 <= j < heads.len() ==> (#[trigger] heads[j]).name != tag_name(locator)) ==> selected(
            heads,
            locator,
        ) == Some(heads[first_named(heads, branch_name(locator), 0)].oid),
        heads[i].name == locator && (forall|j: int|
            0 <= j < heads.len() ==> (#[trigger] heads[j]).name != tag_name(locator) && heads[j].name
                != branch_name(locator)) ==> selected(heads, locator) == Some(
            heads[first_named(heads, locator, 0)].oid,
        ),
{
    lemma_first_named(heads, tag_name(locator), 0);
    lemma_first_named(heads, branch_name(locator), 0);
    lemma_first_named(heads, locator, 0);
}

/// What a lookup of `locator` gives on what the remote answered.
pub open spec fn lookup(heads: Option<Seq<Advertised>>, locator: Seq<char>) -> Result<
    Seq<char>,
    ResolveError,
> {
    match heads {
        None => Err(ResolveError::NetworkError),
        Some(heads) => match selected(heads, locator) {
            Some(oid) => Ok(oid),
            None => Err(ResolveError::ReferenceNotFound),
        },
    }
}

/// The outcome of a resolution, its commit as characters.
pub open spec fn outcome(r: Result<String, ResolveError>) -> Result<Seq<char>, ResolveError> {
    match r {
        Ok(sha) => Ok(sha@),
        Err(e) => Err(e),
    }
}

/// What resolving the reference `key`, with locator `locator`, gives: what
/// `cache` holds for it, else what the lookup gives.
pub open spec fn resolution(
    cache: Map<Seq<char>, Seq<char>>,
    key: Seq<char>,
    locator: Seq<char>,
    heads: Option<Seq<Advertised>>,
) -> Result<Seq<char>, ResolveError> {
    if cache.contains_key(key) {
        Ok(cache[key])
    } else {
        lookup(heads, locator)
    }
}

/// The cache after resolving the reference `key`: a commit that the lookup
/// found is kept under `key`, and nothing else changes.
pub open spec fn cache_after(
    cache: Map<Seq<char>, Seq<char>>,
    key: Seq<char>,
    locator: Seq<char>,
    heads: Option<Seq<Advertised>>,
) -> Map<Seq<char>, Seq<char>> {
    if cache.contains_key(key) {
        cache
    } else {
        match lookup(heads, locator) {
            Ok(oid) => cache.insert(key, oid),
            Err(_) => cache,
        }
    }
}

/// What was resolved stays resolved: once resolving a reference has given a
/// commit, resolving it again gives that commit, whatever the remote then
/// advertises, and leaves the cache as it is.
pub proof fn lemma_resolved_is_cached(
    cache: Map<Seq<char>, Seq<char>>,
    key: Seq<char>,
    locator: Seq<char>,
    heads: Option<Seq<Advertised>>,
    later: Option<Seq<Advertised>>,
)
    requires
        resolution(cache, key, locator, heads) is Ok,
    ensures
        resolution(cache_after(cache, key, locator, heads), key, locator, later) == resolution(
            cache,
            key,
            locator,
            heads,
        ),
        cache_after(cache_after(cache, key, locator, heads), key, locator, later) == cache_after(
            cache,
            key,
            locator,
            heads,
        ),
{
}

/// A failure is not remembered: it leaves the cache as it was, so the
/// reference is looked up again the next time.
pub proof fn lemma_failure_is_not_cached(
    cache: Map<Seq<char>, Seq<char>>,
    key: Seq<char>,
    locator: Seq<char>,
    heads: Option<Seq<Advertised>>,
)
    requires
        resolution(cache, key, locator, heads) is Err,
    ensures
        cache_after(cache, key, locator, heads) == cache,
        !cache.contains_key(key),
{
}

/// Computes [`first_named`] from the start.
fn find_named(heads: &Vec<RemoteHead>, name: &String) -> (r: usize)
    ensures
        r == first_named(advertised(heads@), name@, 0),
        r <= heads.len(),
{
    let mut i: usize = 0;
    while i < heads.len() && heads[i].name != *name
        invariant
            i <= heads.len(),
            first_named(advertised(heads@), name@, 0) == first_named(
                advertised(heads@),
                name@,
                i as int,
            ),
        decreases heads.len() - i,
    {
        i += 1;
    }
    i
}

/// Computes [`first_ending`] from the start.
fn find_ending(heads: &Vec<RemoteHead>, suffix: &str) -> (r: usize)
    ensures
        r == first_ending(advertised(heads@), suffix@, 0),
        r <= heads.len(),
{
    let tail = chars_of(suffix);
    let mut i: usize = 0;
    while i < heads.len()
        invariant
            i <= heads.len(),
            tail@ == suffix@,
            first_ending(advertised(heads@), suffix@, 0) == first_ending(
                advertised(heads@),
                suffix@,
                i as int,
            ),
        decreases heads.len() - i,
    {
        let name = chars_of(heads[i].name.as_str());
        if ends_in(&name, &tail) {
            return i;
        }
        i += 1;
    }
    i
}

/// Resolves references to commits and remembers what it resolved.
pub struct GitResolver {
    cache: StringHashMap<String>,
}

impl View for GitResolver {
    type V = Map<Seq<char>, Seq<char>>;

    /// The commits resolved so far, under the text of their references.
    closed spec fn view(&self) -> Map<Seq<char>, Seq<char>> {
        self.cache@.map_values(|sha: String| sha@)
    }
}

impl GitResolver {
    /// A resolver that has resolved nothing yet.
    pub fn new() -> (r: Self)
        ensures
            r@ == Map::<Seq<char>, Seq<char>>::empty(),
    {
        let r = GitResolver { cache: StringHashMap::new() };
        assert(r@ =~= Map::<Seq<char>, Seq<char>>::empty());
        r
    }

    /// The commit that `action` was resolved to before, if it was.
    pub fn cached(&self, action: &ActionRef) -> (r: Option<String>)
        ensures
            match r {
                Some(sha) => self@.contains_key(action.key()) && sha@ == self@[action.key()],
                None => !self@.contains_key(action.key()),
            },
    {
        let key = action.to_string();
        match self.cache.get(key.as_str()) {
            Some(sha) => Some(sha.clone()),
            None => None,
        }
    }

    /// Picks the commit for `reference` out of what the remote answered.
    ///
    /// See [`selected`] for the order of preference, and for the guess that
    /// is made where no name matches exactly.
    pub fn git_ls_remote(listing: &Listing, reference: &str) -> (r: Result<String, ResolveError>)
        ensures
            outcome(r) == lookup(listing.heads(), reference@),
    {
        match listing {
            Listing::Unreachable => Err(ResolveError::NetworkError),
            Listing::Heads(heads) => {
                let mut tag = String::from_str("refs/tags/");
                tag.append(reference);
                let at = find_named(heads, &tag);
                if at < heads.len() {
                    return Ok(heads[at].oid.clone());
                }
                let mut branch = String::from_str("refs/heads/");
                branch.append(reference);
                let at = find_named(heads, &branch);
                if at < heads.len() {
                    return Ok(heads[at].oid.clone());
                }
                let plain = String::from_str(reference);
                let at = find_named(heads, &plain);
                if at < heads.len() {
                    return Ok(heads[at].oid.clone());
                }
                let at = find_ending(heads, reference);
                if at < heads.len() {
                    return Ok(heads[at].oid.clone());
                }
                Err(ResolveError::ReferenceNotFound)
            },
        }
    }

    /// Resolves `action` to a commit.
    ///
    /// A commit that the cache holds for the reference is the answer, and
    /// `listing` is not looked at. Otherwise the answer is picked out of
    /// `listing`, what the remote of the action advertised, and a commit
    /// found there is cached; a failure leaves the cache as it was.
    pub fn resolve_sha(&mut self, action: &ActionRef, listing: &Listing) -> (r: Result<
        String,
        ResolveError,
    >)
        ensures
            outcome(r) == resolution(old(self)@, action.key(), action.reference@, listing.heads()),
            final(self)@ == cache_after(
                old(self)@,
                action.key(),
                action.reference@,
                listing.heads(),
            ),
    {
        match self.cached(action) {
            Some(sha) => Ok(sha),
            None => {
                match Self::git_ls_remote(listing, action.reference.as_str()) {
                    Ok(sha) => {
                        let key = action.to_string();
                        let kept = sha.clone();
                        self.cache.insert(key, kept);
                        assert(self@ =~= old(self)@.insert(action.key(), sha@));
                        Ok(sha)
                    },
                    Err(e) => Err(e),
                }
            },
        }
    }
    /// Starts a batch on `actions` in which at most `concurrency` lookups are
    /// under way at once. Every reference waits.
    pub fn batch_resolve(&self, actions: Vec<ActionRef>, concurrency: usize) -> (r: Batch)
        ensures
            r.wf(),
            r@.actions == references(actions@),
            r@.limit == concurrency,
            r@.slots == Seq::new(actions.len() as nat, |i: int| Progress::Waiting),
    {
        let mut slots: Vec<Slot> = Vec::new();
        let mut i: usize = 0;
        while i < actions.len()
            invariant
                i <= actions.len(),
                slots.len() == i,
                flying(progress(slots@)) == 0,
                forall|j: int| 0 <= j < i ==> #[trigger] slots[j] is Waiting,
            decreases actions.len() - i,
        {
            proof {
                assert(progress(slots@.push(Slot::Waiting)).drop_last() =~= progress(slots@));
            }
            slots.push(Slot::Waiting);
            i += 1;
        }
        let r = Batch { actions, slots, next: 0, in_flight: 0, limit: concurrency };
        assert(r@.slots =~= Seq::new(actions.len() as nat, |i: int| Progress::Waiting));
        r
    }
}

impl Default for GitResolver {
    fn default() -> (r: Self)
        ensures
            r@ == Map::<Seq<char>, Seq<char>>::empty(),
    {
        Self::new()
    }
}


/// Where one reference of a batch stands.
pub enum Progress {
    /// Nothing was done for it yet.
    Waiting,
    /// Its lookup was started and has not come back.
    InFlight,
    /// It has its outcome.
    Done(Result<Seq<char>, ResolveError>),
}

/// Where one reference of a batch stands.
#[derive(Debug)]
pub enum Slot {
    /// Nothing was done for it yet.
    Waiting,
    /// Its lookup was started and has not come back.
    InFlight,
    /// It has its outcome.
    Done(Result<String, ResolveError>),
}

impl View for Slot {
    type V = Progress;

    open spec fn view(&self) -> Progress {
        match self {
            Slot::Waiting => Progress::Waiting,
            Slot::InFlight => Progress::InFlight,
            Slot::Done(r) => Progress::Done(outcome(*r)),
        }
    }
}

/// A lookup to make: ask the remote at `url` for its references, and hand
/// them to [`Batch::complete`] under `index`.
#[derive(Debug)]
pub struct Lookup {
    pub index: usize,
    pub url: String,
    pub reference: String,
}

/// The state of a batch: the references, where each stands, and how many
/// lookups may be under way at once.
pub struct BatchView {
    pub actions: Seq<Reference>,
    pub slots: Seq<Progress>,
    pub limit: nat,
}

/// How many of `slots` are in flight.
pub open spec fn flying(slots: Seq<Progress>) -> nat
    decreases slots.len(),
{
    if slots.len() == 0 {
        0
    } else if slots.last() is InFlight {
        flying(slots.drop_last()) + 1
    } else {
        flying(slots.drop_last())
    }
}

/// Whether every one of `slots` has its outcome.
pub open spec fn finished(slots: Seq<Progress>) -> bool {
    forall|i: int| 0 <= i < slots.len() ==> #[trigger] slots[i] is Done
}

/// Whether the reference at `i` needs a lookup: it waits, and the cache does
/// not hold it.
pub open spec fn needs_lookup(batch: BatchView, cache: Map<Seq<char>, Seq<char>>, i: int) -> bool {
    batch.slots[i] is Waiting && !cache.contains_key(batch.actions[i].key())
}

/// The position at or after `from` of the first reference that needs a
/// lookup, or the number of references if none does.
pub open spec fn first_lookup(batch: BatchView, cache: Map<Seq<char>, Seq<char>>, from: int) -> int
    decreases batch.slots.len() - from,
{
    if 0 <= from < batch.slots.len() && !needs_lookup(batch, cache, from) {
        first_lookup(batch, cache, from + 1)
    } else {
        from
    }
}

/// Whether a step starts a lookup: a reference needs one, and fewer lookups
/// than the limit are under way.
pub open spec fn starts_lookup(batch: BatchView, cache: Map<Seq<char>, Seq<char>>) -> bool {
    first_lookup(batch, cache, 0) < batch.slots.len() && flying(batch.slots) < batch.limit
}

/// The batch after a step: the waiting references before the first that
/// needs a lookup have their commit from the cache, and that one is in
/// flight if its lookup starts.
pub open spec fn after_step(batch: BatchView, cache: Map<Seq<char>, Seq<char>>) -> BatchView {
    let first = first_lookup(batch, cache, 0);
    BatchView {
        actions: batch.actions,
        slots: Seq::new(
            batch.slots.len(),
            |i: int|
                if i < first && batch.slots[i] is Waiting {
                    Progress::Done(Ok(cache[batch.actions[i].key()]))
                } else if i == first && starts_lookup(batch, cache) {
                    Progress::InFlight
                } else {
                    batch.slots[i]
                },
        ),
        limit: batch.limit,
    }
}

/// Whether a listing is taken for the reference at `index`: its lookup is
/// under way.
pub open spec fn awaited(batch: BatchView, index: int) -> bool {
    0 <= index < batch.slots.len() && batch.slots[index] is InFlight
}

/// Putting `to` in place of the slot at `i` changes the number in flight by
/// what the two slots differ in.
pub proof fn lemma_flying_update(slots: Seq<Progress>, i: int, to: Progress)
    requires
        0 <= i < slots.len(),
    ensures
        flying(slots.update(i, to)) + (if slots[i] is InFlight {
            1nat
        } else {
            0nat
        }) == flying(slots) + (if to is InFlight {
            1nat
        } else {
            0nat
        }),
    decreases slots.len(),
{
    if i == slots.len() - 1 {
        assert(slots.update(i, to).drop_last() =~= slots.drop_last());
    } else {
        lemma_flying_update(slots.drop_last(), i, to);
        assert(slots.update(i, to).drop_last() =~= slots.drop_last().update(i, to));
    }
}

/// No more slots are in flight than there are slots.
pub proof fn lemma_flying_bound(slots: Seq<Progress>)
    ensures
        flying(slots) <= slots.len(),
    decreases slots.len(),
{
    if slots.len() > 0 {
        lemma_flying_bound(slots.drop_last());
    }
}

/// Where no reference in `from..to` needs a lookup, the search from `from`
/// is the search from `to`.
pub proof fn lemma_first_lookup_skips(
    batch: BatchView,
    cache: Map<Seq<char>, Seq<char>>,
    from: int,
    to: int,
)
    requires
        0 <= from <= to <= batch.slots.len(),
        forall|i: int| from <= i < to ==> !needs_lookup(batch, cache, i),
    ensures
        first_lookup(batch, cache, from) == first_lookup(batch, cache, to),
    decreases to - from,
{
    if from < to {
        lemma_first_lookup_skips(batch, cache, from + 1, to);
    }
}

/// `first_lookup` stops at a reference that needs a lookup, or at the end.
pub proof fn lemma_first_lookup(batch: BatchView, cache: Map<Seq<char>, Seq<char>>, from: int)
    requires
        0 <= from <= batch.slots.len(),
    ensures
        from <= first_lookup(batch, cache, from) <= batch.slots.len(),
        first_lookup(batch, cache, from) < batch.slots.len() ==> needs_lookup(
            batch,
            cache,
            first_lookup(batch, cache, from),
        ),
        forall|i: int| from <= i < first_lookup(batch, cache, from) ==> !needs_lookup(batch, cache, i),
    decreases batch.slots.len() - from,
{
    if from < batch.slots.len() && !needs_lookup(batch, cache, from) {
        lemma_first_lookup(batch, cache, from + 1);
    }
}

/// Slots of which none is in flight count as none.
pub proof fn lemma_none_flying(slots: Seq<Progress>)
    requires
        flying(slots) == 0,
    ensures
        forall|i: int| 0 <= i < slots.len() ==> !(#[trigger] slots[i] is InFlight),
    decreases slots.len(),
{
    if slots.len() > 0 {
        lemma_none_flying(slots.drop_last());
        assert forall|i: int| 0 <= i < slots.len() implies !(#[trigger] slots[i] is InFlight) by {
            if i < slots.len() - 1 {
                assert(slots.drop_last()[i] == slots[i]);
            }
        }
    }
}

/// A reference is looked up once and gets one outcome: a step changes only
/// references that wait, and leaves every lookup that is under way and every
/// outcome as it is.
pub proof fn lemma_step_keeps(batch: BatchView, cache: Map<Seq<char>, Seq<char>>, i: int)
    requires
        0 <= i < batch.slots.len(),
        !(batch.slots[i] is Waiting),
    ensures
        after_step(batch, cache).slots[i] == batch.slots[i],
{
    lemma_first_lookup(batch, cache, 0);
}

/// No reference holds up another: where lookups are allowed at all and none
/// is under way, a step starts one, or else every reference has its outcome
/// after it.
pub proof fn lemma_step_goes_on(batch: BatchView, cache: Map<Seq<char>, Seq<char>>)
    requires
        batch.limit > 0,
        flying(batch.slots) == 0,
    ensures
        starts_lookup(batch, cache) || finished(after_step(batch, cache).slots),
{
    lemma_first_lookup(batch, cache, 0);
    lemma_none_flying(batch.slots);
}

/// What `slots` stand for.
pub open spec fn progress(slots: Seq<Slot>) -> Seq<Progress> {
    slots.map_values(|s: Slot| s@)
}

/// What `actions` stand for.
pub open spec fn references(actions: Seq<ActionRef>) -> Seq<Reference> {
    actions.map_values(|a: ActionRef| a@)
}

/// A set of references that are resolved together, with a bound on the
/// lookups that are under way at once.
///
/// The batch decides and keeps the books; its owner makes the lookups. It
/// calls [`Batch::next_lookup`] until that gives `None`, starts each lookup it
/// was given, hands each listing that comes back to [`Batch::complete`], in
/// whatever order they come, and asks again. When every reference has its
/// outcome, [`Batch::finish`] hands the outcomes out.
pub struct Batch {
    actions: Vec<ActionRef>,
    slots: Vec<Slot>,
    next: usize,
    in_flight: usize,
    limit: usize,
}

impl View for Batch {
    type V = BatchView;

    closed spec fn view(&self) -> BatchView {
        BatchView {
            actions: references(self.actions@),
            slots: progress(self.slots@),
            limit: self.limit as nat,
        }
    }
}

impl Batch {
    /// Whether the books are in order.
    pub closed spec fn wf(&self) -> bool {
        &&& self.slots.len() == self.actions.len()
        &&& self.next <= self.slots.len()
        &&& self.in_flight == flying(progress(self.slots@))
        &&& self.in_flight <= self.limit
        &&& forall|i: int| 0 <= i < self.next ==> !(#[trigger] self.slots[i] is Waiting)
        &&& forall|i: int| self.next <= i < self.slots.len() ==> #[trigger] self.slots[i] is Waiting
    }

    /// A batch in order has a slot for each reference, and no more lookups
    /// under way than its limit.
    pub proof fn lemma_bounded(&self)
        requires
            self.wf(),
        ensures
            self@.slots.len() == self@.actions.len(),
            flying(self@.slots) <= self@.limit,
    {
    }

    /// How many lookups are under way.
    pub fn in_flight(&self) -> (r: usize)
        requires
            self.wf(),
        ensures
            r == flying(self@.slots),
            r <= self@.limit,
    {
        self.in_flight
    }

    /// Takes a step: gives the waiting references that the cache of
    /// `resolver` holds their commit, up to the first reference that needs a
    /// lookup, and starts that lookup if fewer than the limit are under way.
    /// No lookup is started for a reference that the cache holds, nor for
    /// one that was looked up before.
    pub fn next_lookup(&mut self, resolver: &GitResolver) -> (r: Option<Lookup>)
        requires
            old(self).wf(),
        ensures
            final(self).wf(),
            final(self)@ == after_step(old(self)@, resolver@),
            match r {
                Some(lookup) => {
                    &&& starts_lookup(old(self)@, resolver@)
                    &&& lookup.index == first_lookup(old(self)@, resolver@, 0)
                    &&& needs_lookup(old(self)@, resolver@, lookup.index as int)
                    &&& lookup.url@ == remote_url(old(self)@.actions[lookup.index as int].repository)
                    &&& lookup.reference@ == old(self)@.actions[lookup.index as int].locator
                },
                None => !starts_lookup(old(self)@, resolver@),
            },
    {
        let n = self.slots.len();
        proof {
            lemma_first_lookup(self@, resolver@, 0);
            lemma_first_lookup_skips(self@, resolver@, 0, self.next as int);
            assert(self@.slots =~= Seq::new(
                old(self)@.slots.len(),
                |i: int|
                    if i < self.next && old(self)@.slots[i] is Waiting {
                        Progress::Done(Ok(resolver@[old(self)@.actions[i].key()]))
                    } else {
                        old(self)@.slots[i]
                    },
            ));
        }
        while self.next < n
            invariant
                n == self.slots.len(),
                old(self).wf(),
                self.wf(),
                self.actions == old(self).actions,
                self.limit == old(self).limit,
                old(self).next <= self.next,
                flying(self@.slots) == flying(old(self)@.slots),
                first_lookup(old(self)@, resolver@, 0) == first_lookup(
                    old(self)@,
                    resolver@,
                    self.next as int,
                ),
                self@.slots == Seq::new(
                    old(self)@.slots.len(),
                    |i: int|
                        if i < self.next && old(self)@.slots[i] is Waiting {
                            Progress::Done(Ok(resolver@[old(self)@.actions[i].key()]))
                        } else {
                            old(self)@.slots[i]
                        },
                ),
            decreases n - self.next,
        {
            let i = self.next;
            let ghost before = self@.slots;
            assert(old(self)@.slots[i as int] is Waiting);
            assert(old(self)@.actions[i as int] == self.actions[i as int]@);
            match resolver.cached(&self.actions[i]) {
                Some(sha) => {
                    self.slots.set(i, Slot::Done(Ok(sha)));
                    self.next = i + 1;
                    proof {
                        let to = Progress::Done(Ok(sha@));
                        assert(self@.slots =~= before.update(i as int, to));
                        lemma_flying_update(before, i as int, to);
                    }
                },
                None => {
                    if self.in_flight < self.limit {
                        let url = self.actions[i].git_url();
                        let reference = self.actions[i].reference.clone();
                        self.slots.set(i, Slot::InFlight);
                        self.in_flight = self.in_flight + 1;
                        self.next = i + 1;
                        proof {
                            assert(self@.slots =~= before.update(i as int, Progress::InFlight));
                            lemma_flying_update(before, i as int, Progress::InFlight);
                            assert(self@.slots =~= after_step(old(self)@, resolver@).slots);
                        }
                        return Some(Lookup { index: i, url, reference });
                    } else {
                        proof {
                            assert(self@.slots =~= after_step(old(self)@, resolver@).slots);
                        }
                        return None;
                    }
                },
            }
        }
        proof {
            assert(self@.slots =~= after_step(old(self)@, resolver@).slots);
        }
        None
    }

    /// Takes the listing that came back for the lookup `index`: resolves the
    /// reference on it, which caches a commit that was found, and frees the
    /// lane. A listing for a reference whose lookup is not under way is
    /// passed over, and `false` is the answer.
    pub fn complete(&mut self, resolver: &mut GitResolver, index: usize, listing: &Listing) -> (r:
        bool)
        requires
            old(self).wf(),
        ensures
            final(self).wf(),
            r == awaited(old(self)@, index as int),
            final(self)@.actions == old(self)@.actions,
            final(self)@.limit == old(self)@.limit,
            r ==> final(self)@.slots == old(self)@.slots.update(
                index as int,
                Progress::Done(
                    resolution(
                        old(resolver)@,
                        old(self)@.actions[index as int].key(),
                        old(self)@.actions[index as int].locator,
                        listing.heads(),
                    ),
                ),
            ),
            r ==> final(resolver)@ == cache_after(
                old(resolver)@,
                old(self)@.actions[index as int].key(),
                old(self)@.actions[index as int].locator,
                listing.heads(),
            ),
            !r ==> final(self)@.slots == old(self)@.slots && final(resolver)@ == old(resolver)@,
    {
        if index >= self.slots.len() {
            return false;
        }
        match &self.slots[index] {
            Slot::InFlight => {},
            _ => {
                return false;
            },
        }
        let ghost before = self@.slots;
        let result = resolver.resolve_sha(&self.actions[index], listing);
        proof {
            let to = Progress::Done(outcome(result));
            lemma_flying_update(before, index as int, to);
            lemma_flying_bound(before.update(index as int, to));
        }
        self.slots.set(index, Slot::Done(result));
        self.in_flight = self.in_flight - 1;
        proof {
            assert(self@.slots =~= before.update(index as int, Progress::Done(outcome(result))));
        }
        true
    }

    /// Whether every reference has its outcome.
    pub fn is_finished(&self) -> (r: bool)
        requires
            self.wf(),
        ensures
            r == finished(self@.slots),
    {
        let mut i: usize = 0;
        while i < self.slots.len()
            invariant
                i <= self.slots.len(),
                forall|j: int| 0 <= j < i ==> #[trigger] self@.slots[j] is Done,
            decreases self.slots.len() - i,
        {
            match &self.slots[i] {
                Slot::Done(_) => {},
                _ => {
                    assert(!(self@.slots[i as int] is Done));
                    return false;
                },
            }
            i += 1;
        }
        true
    }

    /// The references with their outcomes, in the order in which the batch
    /// was given them; `None` while a reference has no outcome.
    pub fn finish(&self) -> (r: Option<Vec<(ActionRef, Result<String, ResolveError>)>>)
        requires
            self.wf(),
        ensures
            match r {
                Some(pairs) => {
                    &&& finished(self@.slots)
                    &&& pairs.len() == self@.actions.len()
                    &&& forall|i: int|
                        0 <= i < pairs.len() ==> (#[trigger] pairs[i]).0@ == self@.actions[i]
                            && Progress::Done(outcome(pairs[i].1)) == self@.slots[i]
                },
                None => !finished(self@.slots),
            },
    {
        let mut pairs: Vec<(ActionRef, Result<String, ResolveError>)> = Vec::new();
        let mut i: usize = 0;
        while i < self.slots.len()
            invariant
                self.wf(),
                i <= self.slots.len(),
                pairs.len() == i,
                forall|j: int| 0 <= j < i ==> #[trigger] self@.slots[j] is Done,
                forall|j: int|
                    0 <= j < i ==> (#[trigger] pairs[j]).0@ == self@.actions[j] && Progress::Done(
                        outcome(pairs[j].1),
                    ) == self@.slots[j],
            decreases self.slots.len() - i,
        {
            let result = match &self.slots[i] {
                Slot::Done(Ok(sha)) => Ok(sha.clone()),
                Slot::Done(Err(e)) => Err(*e),
                _ => {
                    assert(!(self@.slots[i as int] is Done));
                    return None;
                },
            };
            pairs.push((self.actions[i].clone(), result));
            i += 1;
        }
        Some(pairs)
    }
}

} // verus!
