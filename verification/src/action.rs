//! References to actions, and references pinned to a commit.

use vstd::prelude::*;
use crate::text::{
    chars_of, find, find_in, free_of, is_lower_hex, lemma_find, lemma_find_is, lemma_skip_back_is,
    lemma_skip_is, lower_hex, skip, skip_back, skip_back_in, skip_in, string_of, CharClass,
};

verus! {

/// What a reference names: a repository and a locator in it.
pub struct Reference {
    pub repository: Seq<char>,
    pub locator: Seq<char>,
}

/// The locator of a reference that names none: the remote's default branch.
pub open spec fn default_locator() -> Seq<char> {
    "HEAD"@
}

/// Whether `locator` is a commit hash: forty lowercase hexadecimal digits.
pub open spec fn is_commit_hash(locator: Seq<char>) -> bool {
    locator.len() == 40 && forall|i: int| 0 <= i < locator.len() ==> is_lower_hex(#[trigger] locator[i])
}

/// Whether `repository` can stand in a reference: it is not empty and holds
/// neither white space nor `@`.
pub open spec fn valid_repository(repository: Seq<char>) -> bool {
    repository.len() > 0 && free_of(repository, CharClass::Space, 0, repository.len() as int)
        && free_of(repository, CharClass::At, 0, repository.len() as int)
}

/// Whether `locator` can be read back from a reference's text: it holds
/// neither white space nor `#`.
pub open spec fn valid_locator(locator: Seq<char>) -> bool {
    free_of(locator, CharClass::TokenEnd, 0, locator.len() as int)
}

/// The text of a reference: repository, `@`, locator.
pub open spec fn canonical(repository: Seq<char>, locator: Seq<char>) -> Seq<char> {
    repository + seq!['@'] + locator
}

/// Where the repository of an action is fetched from.
pub open spec fn remote_url(repository: Seq<char>) -> Seq<char> {
    "https://github.com/"@ + repository + ".git"@
}

impl Reference {
    /// The text of the reference, under which it is cached and told apart
    /// from others.
    pub open spec fn key(self) -> Seq<char> {
        canonical(self.repository, self.locator)
    }
}

/// Whether `repository` names an action of the workflow's own repository.
pub open spec fn is_local_path(repository: Seq<char>) -> bool {
    repository.len() >= 2 && repository[0] == '.' && repository[1] == '/'
}

/// Where the first `@` of `text` stands, or the length of `text`.
pub open spec fn at_sign(text: Seq<char>) -> int {
    find(text, CharClass::At, 0, text.len() as int)
}

/// The repository that `text` names: what stands before the first `@`,
/// without the white space around it.
pub open spec fn repository_of(text: Seq<char>) -> Seq<char> {
    let at = at_sign(text);
    let start = skip(text, CharClass::Space, 0, at);
    let end = skip_back(text, CharClass::Space, start, at);
    text.subrange(start, end)
}

/// The locator that `text` names: what follows the first `@`, after leading
/// white space, up to the next white space or `#`; the default branch where
/// `text` holds no `@`.
pub open spec fn locator_of(text: Seq<char>) -> Seq<char> {
    let at = at_sign(text);
    if at < text.len() {
        let start = skip(text, CharClass::Space, at + 1, text.len() as int);
        let end = find(text, CharClass::TokenEnd, start, text.len() as int);
        text.subrange(start, end)
    } else {
        default_locator()
    }
}

/// The reference that `text` names, if it names one.
pub open spec fn parsed(text: Seq<char>) -> Option<Reference> {
    if valid_repository(repository_of(text)) {
        Some(Reference { repository: repository_of(text), locator: locator_of(text) })
    } else {
        None
    }
}

/// Reading the text of a reference gives the reference back: for a
/// repository and a locator that can stand in one, `repository@locator` is
/// read as that repository and that locator, whose text it is again.
pub proof fn lemma_parse_round_trip(repository: Seq<char>, locator: Seq<char>)
    requires
        valid_repository(repository),
        valid_locator(locator),
    ensures
        parsed(canonical(repository, locator)) == Some(Reference { repository, locator }),
        parsed(canonical(repository, locator)) matches Some(r) && canonical(r.repository, r.locator)
            == canonical(repository, locator),
{
    let text = canonical(repository, locator);
    let at = repository.len() as int;
    let n = text.len() as int;
    assert forall|i: int| 0 <= i < at implies text[i] == repository[i] by {}
    assert forall|i: int| at < i < n implies text[i] == locator[i - at - 1] by {}
    assert(text[at] == '@');
    lemma_find_is(text, CharClass::At, 0, n, at);
    lemma_skip_is(text, CharClass::Space, 0, at, 0);
    lemma_skip_back_is(text, CharClass::Space, 0, at, at);
    assert(text.subrange(0, at) =~= repository);
    lemma_skip_is(text, CharClass::Space, at + 1, n, at + 1);
    lemma_find_is(text, CharClass::TokenEnd, at + 1, n, n);
    assert(text.subrange(at + 1, n) =~= locator);
}

/// The text of a reference tells references apart: two references whose
/// repositories can stand in one have the same text only if they have the
/// same repository and the same locator.
pub proof fn lemma_key_identity(a: Reference, b: Reference)
    requires
        valid_repository(a.repository),
        valid_repository(b.repository),
        a.key() == b.key(),
    ensures
        a == b,
{
    let text = a.key();
    let n = text.len() as int;
    assert forall|i: int| 0 <= i < a.repository.len() implies text[i] == a.repository[i] by {}
    assert forall|i: int| 0 <= i < b.repository.len() implies b.key()[i] == b.repository[i] by {}
    assert(text[a.repository.len() as int] == '@');
    assert(b.key()[b.repository.len() as int] == '@');
    lemma_find_is(text, CharClass::At, 0, n, a.repository.len() as int);
    lemma_find_is(text, CharClass::At, 0, n, b.repository.len() as int);
    let at = a.repository.len() as int;
    assert(text.subrange(0, at) =~= a.repository);
    assert(text.subrange(0, at) =~= b.repository);
    assert(text.subrange(at + 1, n) =~= a.locator);
    assert(text.subrange(at + 1, n) =~= b.locator);
}

/// A reference to an action: `repository@reference`.
#[derive(Debug, PartialEq, Eq, Hash)]
pub struct ActionRef {
    /// The repository of the action, such as `actions/checkout`.
    pub repository: String,
    /// The tag, branch or commit hash.
    pub reference: String,
    /// Whether `reference` is a commit hash already.
    pub is_sha: bool,
}

impl View for ActionRef {
    type V = Reference;

    open spec fn view(&self) -> Reference {
        Reference { repository: self.repository@, locator: self.reference@ }
    }
}

impl Clone for ActionRef {
    fn clone(&self) -> (r: Self)
        ensures
            r == *self,
    {
        ActionRef {
            repository: self.repository.clone(),
            reference: self.reference.clone(),
            is_sha: self.is_sha,
        }
    }
}

/// Decides [`is_commit_hash`] on `v[from..to]`.
pub fn commit_hash_in(v: &Vec<char>, from: usize, to: usize) -> (r: bool)
    requires
        from <= to <= v.len(),
    ensures
        r == is_commit_hash(v@.subrange(from as int, to as int)),
{
    if to - from != 40 {
        return false;
    }
    let mut i: usize = from;
    while i < to
        invariant
            from <= i <= to <= v.len(),
            to - from == 40,
            forall|j: int| 0 <= j < i - from ==> is_lower_hex(#[trigger] v@.subrange(from as int, to as int)[j]),
        decreases to - i,
    {
        if !lower_hex(v[i]) {
            assert(!is_lower_hex(v@.subrange(from as int, to as int)[i - from]));
            return false;
        }
        i += 1;
    }
    true
}

impl ActionRef {
    /// Whether the flag says what the reference is, and the repository can
    /// stand in a reference.
    pub open spec fn wf(&self) -> bool {
        &&& valid_repository(self.repository@)
        &&& self.is_sha == is_commit_hash(self.reference@)
    }

    /// The text under which the reference is cached and told apart from
    /// others.
    pub open spec fn key(&self) -> Seq<char> {
        canonical(self.repository@, self.reference@)
    }

    /// Reads a reference such as `actions/checkout@v4`.
    ///
    /// The repository is what stands before the first `@`, the locator what
    /// follows it up to the next white space or `#`; white space around
    /// either is dropped. Text without `@` names the default branch of the
    /// repository. `None` is the answer to text whose repository is empty or
    /// holds white space.
    pub fn parse(action_str: &str) -> (r: Option<Self>)
        ensures
            match r {
                Some(a) => parsed(action_str@) == Some(a@) && a.wf(),
                None => parsed(action_str@).is_none(),
            },
    {
        let v = chars_of(action_str);
        let n = v.len();
        let at = find_in(&v, CharClass::At, 0, n);
        let start = skip_in(&v, CharClass::Space, 0, at);
        let end = skip_back_in(&v, CharClass::Space, start, at);
        let blank = find_in(&v, CharClass::Space, start, end);
        proof {
            let repo = v@.subrange(start as int, end as int);
            lemma_find(v@, CharClass::At, 0, n as int);
            lemma_find(v@, CharClass::Space, start as int, end as int);
            if blank == end && start < end {
                assert forall|i: int| 0 <= i < repo.len() implies !CharClass::Space.has(
                    #[trigger] repo[i],
                ) && !CharClass::At.has(repo[i]) by {
                    assert(repo[i] == v@[start + i]);
                }
            } else if blank < end {
                assert(repo[blank - start] == v@[blank as int]);
            }
        }
        if start == end || blank < end {
            return None;
        }
        let repository = string_of(&v, start, end);
        if at < n {
            let from = skip_in(&v, CharClass::Space, at + 1, n);
            let to = find_in(&v, CharClass::TokenEnd, from, n);
            let reference = string_of(&v, from, to);
            let is_sha = commit_hash_in(&v, from, to);
            Some(ActionRef { repository, reference, is_sha })
        } else {
            let reference = String::from_str("HEAD");
            proof {
                reveal_strlit("HEAD");
            }
            Some(ActionRef { repository, reference, is_sha: false })
        }
    }

    /// Where the repository of the action is fetched from.
    pub fn git_url(&self) -> (r: String)
        ensures
            r@ == remote_url(self.repository@),
    {
        let mut url = String::from_str("https://github.com/");
        url.append(self.repository.as_str());
        url.append(".git");
        url
    }

    /// The reference as text: `repository@reference`.
    pub fn to_string(&self) -> (r: String)
        ensures
            r@ == self.key(),
    {
        let mut s = self.repository.clone();
        s.push('@');
        s.append(self.reference.as_str());
        s
    }

    /// Whether the action lies in the workflow's own repository: its path
    /// starts with `./`.
    pub fn is_local(&self) -> (r: bool)
        ensures
            r == is_local_path(self.repository@),
    {
        let v = chars_of(self.repository.as_str());
        v.len() >= 2 && v[0] == '.' && v[1] == '/'
    }
}

/// The view of a [`PinnedAction`].
pub struct Pinned {
    pub action: Reference,
    pub sha: Seq<char>,
    pub original_ref: Seq<char>,
}

/// What a pinned reference reads in a workflow: repository, `@`, commit, and
/// the locator it was pinned from as a comment.
pub open spec fn pinned_text(repository: Seq<char>, sha: Seq<char>, original_ref: Seq<char>) -> Seq<
    char,
> {
    repository + seq!['@'] + sha + seq![' ', '#', ' '] + original_ref
}

/// A reference together with the commit it was resolved to.
#[derive(Debug)]
pub struct PinnedAction {
    pub action: ActionRef,
    pub sha: String,
    pub original_ref: String,
}

impl View for PinnedAction {
    type V = Pinned;

    open spec fn view(&self) -> Pinned {
        Pinned { action: self.action@, sha: self.sha@, original_ref: self.original_ref@ }
    }
}

impl Clone for PinnedAction {
    fn clone(&self) -> (r: Self)
        ensures
            r == *self,
    {
        PinnedAction {
            action: self.action.clone(),
            sha: self.sha.clone(),
            original_ref: self.original_ref.clone(),
        }
    }
}

impl PinnedAction {
    /// Pins `action` to `sha` and keeps the locator it had.
    pub fn new(action: ActionRef, sha: String) -> (r: Self)
        ensures
            r.action == action,
            r.sha == sha,
            r.original_ref@ == action.reference@,
    {
        let original_ref = action.reference.clone();
        PinnedAction { action, sha, original_ref }
    }

    /// The text that replaces the reference in a workflow:
    /// `repository@sha # original_ref`.
    pub fn format_uses_line(&self) -> (r: String)
        ensures
            r@ == pinned_text(self.action.repository@, self.sha@, self.original_ref@),
    {
        let mut s = self.action.repository.clone();
        s.push('@');
        s.append(self.sha.as_str());
        s.push(' ');
        s.push('#');
        s.push(' ');
        s.append(self.original_ref.as_str());
        s
    }
}

} // verus!
