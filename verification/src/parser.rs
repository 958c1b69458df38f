//! Workflow text: its lines, and the references that its lines hold.

use vstd::prelude::*;
use crate::action::{
    canonical, is_local_path, lemma_parse_round_trip, valid_locator, valid_repository, ActionRef,
    Reference,
};
use crate::text::{chars_of, find, find_in, lemma_find, skip, skip_in, string_of, CharClass};

verus! {

/// The keyword that introduces a reference.
pub open spec fn keyword() -> Seq<char> {
    seq!['u', 's', 'e', 's', ':']
}

/// Where the indentation of `line` ends: behind leading white space, one
/// `-` if there is one, and the white space after it.
pub open spec fn indent_end(line: Seq<char>) -> int {
    let n = line.len() as int;
    let dash = skip(line, CharClass::Space, 0, n);
    let after = if dash < n && line[dash] == '-' {
        dash + 1
    } else {
        dash
    };
    skip(line, CharClass::Space, after, n)
}

/// Whether the keyword stands at `at` in `line`.
pub open spec fn has_keyword(line: Seq<char>, at: int) -> bool {
    0 <= at && at + 5 <= line.len() && line.subrange(at, at + 5) == keyword()
}

/// Where the reference of `line` starts: behind the keyword and the white
/// space that follows it.
pub open spec fn token_start(line: Seq<char>) -> int {
    skip(line, CharClass::Space, indent_end(line) + 5, line.len() as int)
}

/// Where the repository of `line` ends: at the first white space, `#` or `@`.
pub open spec fn repository_end(line: Seq<char>) -> int {
    find(line, CharClass::NameEnd, token_start(line), line.len() as int)
}

/// Where the locator of `line` ends: at the first white space or `#` behind
/// the `@`.
pub open spec fn locator_end(line: Seq<char>) -> int {
    find(line, CharClass::TokenEnd, repository_end(line) + 1, line.len() as int)
}

/// Whether `line` holds a reference: indentation, the keyword, white space,
/// a repository, `@` and a locator, the last two not empty.
pub open spec fn is_uses_line(line: Seq<char>) -> bool {
    let k = indent_end(line);
    let t = token_start(line);
    let r = repository_end(line);
    let e = locator_end(line);
    &&& has_keyword(line, k)
    &&& k + 5 < t
    &&& t < r
    &&& r < line.len()
    &&& line[r] == '@'
    &&& r + 1 < e
}

/// A reference where it stands in a workflow.
pub struct Occurrence {
    /// The number of the line, from 1.
    pub line_number: nat,
    /// The line up to the keyword.
    pub indent: Seq<char>,
    /// The line up to the reference.
    pub prefix: Seq<char>,
    /// The reference.
    pub action: Reference,
}

/// The reference that `line` holds, if it holds one that leaves the
/// workflow's own repository.
pub open spec fn occurrence(line: Seq<char>, line_number: nat) -> Option<Occurrence> {
    let repository = line.subrange(token_start(line), repository_end(line));
    let locator = line.subrange(repository_end(line) + 1, locator_end(line));
    if is_uses_line(line) && !is_local_path(repository) {
        Some(
            Occurrence {
                line_number,
                indent: line.subrange(0, indent_end(line)),
                prefix: line.subrange(0, token_start(line)),
                action: Reference { repository, locator },
            },
        )
    } else {
        None
    }
}

/// The lines of `text` from position `from` on: what stands between line
/// feeds, the last line being what follows the last line feed.
pub open spec fn lines_from(text: Seq<char>, from: int) -> Seq<Seq<char>>
    decreases text.len() - from,
{
    let n = text.len() as int;
    let k = find(text, CharClass::Newline, from, n);
    if from <= k < n {
        seq![text.subrange(from, k)] + lines_from(text, k + 1)
    } else {
        seq![text.subrange(from, n)]
    }
}

/// The lines of `text`.
pub open spec fn lines(text: Seq<char>) -> Seq<Seq<char>> {
    lines_from(text, 0)
}

/// The references that `lines` hold, in the order of the lines, each with the
/// number of its line.
pub open spec fn occurrences(lines: Seq<Seq<char>>) -> Seq<Occurrence>
    decreases lines.len(),
{
    if lines.len() == 0 {
        Seq::empty()
    } else {
        let before = occurrences(lines.drop_last());
        match occurrence(lines.last(), lines.len()) {
            Some(o) => before.push(o),
            None => before,
        }
    }
}

/// The reference that a line holds can stand in one: its repository is not
/// empty and holds neither white space nor `@`, and its locator is not empty
/// and holds neither white space nor `#`.
pub proof fn lemma_occurrence_is_sound(line: Seq<char>)
    requires
        is_uses_line(line),
    ensures
        valid_repository(line.subrange(token_start(line), repository_end(line))),
        valid_locator(line.subrange(repository_end(line) + 1, locator_end(line))),
        line.subrange(repository_end(line) + 1, locator_end(line)).len() > 0,
{
    let n = line.len() as int;
    let t = token_start(line);
    let r = repository_end(line);
    let repository = line.subrange(t, r);
    let locator = line.subrange(r + 1, locator_end(line));
    lemma_find(line, CharClass::NameEnd, t, n);
    lemma_find(line, CharClass::TokenEnd, r + 1, n);
    assert forall|i: int| 0 <= i < repository.len() implies !CharClass::Space.has(
        #[trigger] repository[i],
    ) && !CharClass::At.has(repository[i]) by {
        assert(repository[i] == line[t + i]);
    }
    assert forall|i: int| 0 <= i < locator.len() implies !CharClass::TokenEnd.has(
        #[trigger] locator[i],
    ) by {
        assert(locator[i] == line[r + 1 + i]);
    }
}

/// Each of the references found in `lines` is the reference of the line
/// whose number it bears, and that line is one of `lines`.
pub proof fn lemma_occurrence_of_its_line(lines: Seq<Seq<char>>, j: int)
    requires
        0 <= j < occurrences(lines).len(),
    ensures
        1 <= occurrences(lines)[j].line_number <= lines.len(),
        occurrence(
            lines[occurrences(lines)[j].line_number - 1],
            occurrences(lines)[j].line_number,
        ) == Some(occurrences(lines)[j]),
    decreases lines.len(),
{
    let before = occurrences(lines.drop_last());
    if j < before.len() {
        lemma_occurrence_of_its_line(lines.drop_last(), j);
    }
}

/// The references found in `lines` stand in the order of their lines, and no
/// two on one line.
pub proof fn lemma_occurrences_ascend(lines: Seq<Seq<char>>, i: int, j: int)
    requires
        0 <= i < j < occurrences(lines).len(),
    ensures
        occurrences(lines)[i].line_number < occurrences(lines)[j].line_number,
    decreases lines.len(),
{
    let before = occurrences(lines.drop_last());
    if j < before.len() {
        lemma_occurrences_ascend(lines.drop_last(), i, j);
    } else {
        lemma_occurrence_of_its_line(lines.drop_last(), i);
    }
}

/// No reference found in `lines` leads into the workflow's own repository.
pub proof fn lemma_no_local_occurrence(lines: Seq<Seq<char>>, j: int)
    requires
        0 <= j < occurrences(lines).len(),
    ensures
        !is_local_path(occurrences(lines)[j].action.repository),
{
    lemma_occurrence_of_its_line(lines, j);
}

/// One line of a workflow that holds a reference.
#[derive(Debug)]
pub struct UsesLine {
    /// The number of the line, from 1.
    pub line_number: usize,
    /// The line up to the keyword.
    pub indent: String,
    /// The line up to the reference: indentation, keyword and white space.
    pub prefix: String,
    /// The reference.
    pub action: ActionRef,
}

impl View for UsesLine {
    type V = Occurrence;

    open spec fn view(&self) -> Occurrence {
        Occurrence {
            line_number: self.line_number as nat,
            indent: self.indent@,
            prefix: self.prefix@,
            action: self.action@,
        }
    }
}

impl Clone for UsesLine {
    fn clone(&self) -> (r: Self)
        ensures
            r == *self,
    {
        UsesLine {
            line_number: self.line_number,
            indent: self.indent.clone(),
            prefix: self.prefix.clone(),
            action: self.action.clone(),
        }
    }
}

/// The occurrences that `uses` stand for.
pub open spec fn views(uses: Seq<UsesLine>) -> Seq<Occurrence> {
    uses.map_values(|u: UsesLine| u@)
}

/// Those of `uses` whose reference is a commit hash already.
pub open spec fn pinned(uses: Seq<UsesLine>) -> Seq<UsesLine> {
    uses.filter(|u: UsesLine| u.action.is_sha)
}

/// Those of `uses` whose reference is a tag or a branch.
pub open spec fn unpinned(uses: Seq<UsesLine>) -> Seq<UsesLine> {
    uses.filter(|u: UsesLine| !u.action.is_sha)
}

/// A workflow file: its text and the references found in it.
#[derive(Debug)]
pub struct WorkflowFile {
    pub path: String,
    pub content: String,
    pub actions: Vec<UsesLine>,
}

/// A line without a character holds no reference.
pub proof fn lemma_empty_line(line: Seq<char>, line_number: nat)
    requires
        line.len() == 0,
    ensures
        occurrence(line, line_number).is_none(),
{
}

impl WorkflowFile {
    /// Whether `actions` are the references of `content`, each with a flag
    /// that says what it is.
    pub open spec fn wf(&self) -> bool {
        &&& views(self.actions@) == occurrences(lines(self.content@))
        &&& forall|i: int| 0 <= i < self.actions.len() ==> (#[trigger] self.actions[i]).action.wf()
    }

    /// Reads the references out of the text of a workflow.
    pub fn parse(path: String, content: String) -> (r: Self)
        ensures
            r.path == path,
            r.content == content,
            r.wf(),
    {
        let v = chars_of(content.as_str());
        let n = v.len();
        let mut actions: Vec<UsesLine> = Vec::new();
        let mut pos: usize = 0;
        let mut done: usize = 0;
        let ghost mut read: Seq<Seq<char>> = Seq::empty();
        loop
            invariant_except_break
                pos <= n,
                done <= pos,
                done == read.len(),
                lines(v@) == read + lines_from(v@, pos as int),
                views(actions@) == occurrences(read),
            invariant
                n == v.len(),
                forall|i: int| 0 <= i < actions.len() ==> (#[trigger] actions[i]).action.wf(),
            ensures
                views(actions@) == occurrences(lines(v@)),
            decreases n - pos,
        {
            let k = find_in(&v, CharClass::Newline, pos, n);
            let ghost line = v@.subrange(pos as int, k as int);
            proof {
                assert(read.push(line).drop_last() =~= read);
            }
            if pos < k {
                let text = string_of(&v, pos, k);
                match Self::parse_uses_line(text.as_str(), done + 1) {
                    Some(uses) => {
                        proof {
                            assert(views(actions@.push(uses)) =~= views(actions@).push(uses@));
                        }
                        actions.push(uses);
                    },
                    None => {},
                }
            } else {
                proof {
                    lemma_empty_line(line, (done + 1) as nat);
                }
            }
            proof {
                if k < n {
                    assert(read + (seq![line] + lines_from(v@, k + 1)) =~= read.push(line)
                        + lines_from(v@, k + 1));
                } else {
                    assert(read + seq![line] =~= read.push(line));
                }
                read = read.push(line);
            }
            if k == n {
                break ;
            }
            pos = k + 1;
            done = done + 1;
        }
        WorkflowFile { path, content, actions }
    }

    /// Reads the reference that one line holds.
    ///
    /// A line holds one where, behind white space, an optional `-` and more
    /// white space, it has the keyword `uses:`, white space, and a token
    /// `repository@locator`: a repository without white space, `#` or `@`,
    /// and a locator that ends at the first white space or `#`. A reference
    /// into the workflow's own repository is passed over.
    pub fn parse_uses_line(line: &str, line_number: usize) -> (r: Option<UsesLine>)
        ensures
            match r {
                Some(u) => occurrence(line@, line_number as nat) == Some(u@) && u.action.wf(),
                None => occurrence(line@, line_number as nat).is_none(),
            },
    {
        let v = chars_of(line);
        let n = v.len();
        let dash = skip_in(&v, CharClass::Space, 0, n);
        let after = if dash < n && v[dash] == '-' {
            dash + 1
        } else {
            dash
        };
        let k = skip_in(&v, CharClass::Space, after, n);
        if n - k < 5 {
            return None;
        }
        if !(v[k] == 'u' && v[k + 1] == 's' && v[k + 2] == 'e' && v[k + 3] == 's' && v[k + 4]
            == ':') {
            proof {
                let word = v@.subrange(k as int, k + 5);
                assert(word[0] == v@[k as int]);
                assert(word[1] == v@[k + 1]);
                assert(word[2] == v@[k + 2]);
                assert(word[3] == v@[k + 3]);
                assert(word[4] == v@[k + 4]);
            }
            return None;
        }
        assert(v@.subrange(k as int, k + 5) =~= keyword());
        let t = skip_in(&v, CharClass::Space, k + 5, n);
        let r = find_in(&v, CharClass::NameEnd, t, n);
        if t == k + 5 || r == t || r == n || v[r] != '@' {
            return None;
        }
        let e = find_in(&v, CharClass::TokenEnd, r + 1, n);
        if e == r + 1 {
            return None;
        }
        let token = string_of(&v, t, e);
        proof {
            let repository = v@.subrange(t as int, r as int);
            let locator = v@.subrange(r + 1, e as int);
            lemma_occurrence_is_sound(v@);
            assert(token@ =~= canonical(repository, locator));
            lemma_parse_round_trip(repository, locator);
        }
        match ActionRef::parse(token.as_str()) {
            Some(action) => {
                if action.is_local() {
                    None
                } else {
                    let indent = string_of(&v, 0, k);
                    let prefix = string_of(&v, 0, t);
                    Some(UsesLine { line_number, indent, prefix, action })
                }
            },
            None => None,
        }
    }

    /// The references that are not pinned to a commit yet.
    pub fn unpinned_actions(&self) -> (r: Vec<&UsesLine>)
        ensures
            r@.map_values(|u: &UsesLine| *u) == unpinned(self.actions@),
    {
        let mut out: Vec<&UsesLine> = Vec::new();
        let mut i: usize = 0;
        while i < self.actions.len()
            invariant
                i <= self.actions.len(),
                out@.map_values(|u: &UsesLine| *u) == unpinned(self.actions@.take(i as int)),
            decreases self.actions.len() - i,
        {
            let uses = &self.actions[i];
            proof {
                let before = self.actions@.take(i as int);
                assert(self.actions@.take(i + 1) =~= before.push(*uses));
                before.lemma_filter_push(*uses, |u: UsesLine| !u.action.is_sha);
                assert(out@.push(uses).map_values(|u: &UsesLine| *u) =~= out@.map_values(
                    |u: &UsesLine| *u,
                ).push(*uses));
            }
            if !uses.action.is_sha {
                out.push(uses);
            }
            i += 1;
        }
        assert(self.actions@.take(i as int) =~= self.actions@);
        out
    }

    /// How many references are pinned to a commit already.
    pub fn pinned_count(&self) -> (r: usize)
        ensures
            r == pinned(self.actions@).len(),
    {
        let mut count: usize = 0;
        let mut i: usize = 0;
        while i < self.actions.len()
            invariant
                i <= self.actions.len(),
                count <= i,
                count == pinned(self.actions@.take(i as int)).len(),
            decreases self.actions.len() - i,
        {
            proof {
                let before = self.actions@.take(i as int);
                assert(self.actions@.take(i + 1) =~= before.push(self.actions@[i as int]));
                before.lemma_filter_push(self.actions@[i as int], |u: UsesLine| u.action.is_sha);
            }
            if self.actions[i].action.is_sha {
                count += 1;
            }
            i += 1;
        }
        assert(self.actions@.take(i as int) =~= self.actions@);
        count
    }
}

} // verus!
