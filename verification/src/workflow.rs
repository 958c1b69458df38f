//! Rewriting workflows and keeping count of what was done.

use std::path::PathBuf;
use vstd::prelude::*;
use vstd::hash_map::StringHashMap;
use vstd::hash_set::StringHashSet;
use crate::action::{
    is_commit_hash, is_local_path, lemma_key_identity, pinned_text, valid_repository, ActionRef,
    Pinned, PinnedAction, Reference,
};
use crate::git::{references, ResolveError};
use crate::parser::{
    is_uses_line, lemma_no_local_occurrence, lemma_occurrence_is_sound,
    lemma_occurrence_of_its_line, lines, lines_from, occurrence, occurrences, pinned,
    repository_end, token_start, views, Occurrence, UsesLine, WorkflowFile,
};
use crate::text::{
    chars_of, ends_in, ends_with, find, find_in, free_of, lemma_find, CharClass,
};

verus! {

/// One substitution, for the record.
pub struct Audit {
    pub file: Seq<char>,
    pub action: Seq<char>,
    pub old_ref: Seq<char>,
    pub sha: Seq<char>,
}

/// One substitution, for the record: the file, the repository of the action,
/// the locator it had and the commit it was pinned to.
#[derive(Debug)]
pub struct PinnedActionResult {
    pub file: String,
    pub action: String,
    pub old_ref: String,
    pub sha: String,
}

impl View for PinnedActionResult {
    type V = Audit;

    open spec fn view(&self) -> Audit {
        Audit { file: self.file@, action: self.action@, old_ref: self.old_ref@, sha: self.sha@ }
    }
}

/// What `records` stand for.
pub open spec fn audit_views(records: Seq<PinnedActionResult>) -> Seq<Audit> {
    records.map_values(|r: PinnedActionResult| r@)
}

/// The pinned references, each under the text of the reference it pins.
pub struct PinnedMap {
    entries: StringHashMap<PinnedAction>,
}

impl View for PinnedMap {
    type V = Map<Seq<char>, Pinned>;

    closed spec fn view(&self) -> Map<Seq<char>, Pinned> {
        self.entries@.map_values(|p: PinnedAction| p@)
    }
}

impl PinnedMap {
    /// A map without entries.
    pub fn new() -> (r: Self)
        ensures
            r@ == Map::<Seq<char>, Pinned>::empty(),
    {
        let r = PinnedMap { entries: StringHashMap::new() };
        assert(r@ =~= Map::<Seq<char>, Pinned>::empty());
        r
    }

    /// Puts `pinned` under the text of its reference, in place of what was
    /// there.
    pub fn insert(&mut self, pinned: PinnedAction)
        ensures
            final(self)@ == old(self)@.insert(pinned.action.key(), pinned@),
    {
        let key = pinned.action.to_string();
        self.entries.insert(key, pinned);
        assert(self@ =~= old(self)@.insert(pinned.action.key(), pinned@));
    }

    /// The pinned reference under `key`, if there is one.
    pub fn get(&self, key: &str) -> (r: Option<&PinnedAction>)
        ensures
            match r {
                Some(pinned) => self@.contains_key(key@) && pinned@ == self@[key@],
                None => !self@.contains_key(key@),
            },
    {
        self.entries.get(key)
    }
}

/// The position at or after `from` of the first of `uses` that stands on
/// line `number`, or the length of `uses` if none does.
pub open spec fn first_on_line(uses: Seq<Occurrence>, number: nat, from: int) -> int
    decreases uses.len() - from,
{
    if 0 <= from < uses.len() && uses[from].line_number != number {
        first_on_line(uses, number, from + 1)
    } else {
        from
    }
}

/// The reference on line `number` and what it is pinned to, if the line
/// holds a reference and `pins` holds it.
pub open spec fn pin_for(number: nat, uses: Seq<Occurrence>, pins: Map<Seq<char>, Pinned>) -> Option<
    (Occurrence, Pinned),
> {
    let at = first_on_line(uses, number, 0);
    if at < uses.len() && pins.contains_key(uses[at].action.key()) {
        Some((uses[at], pins[uses[at].action.key()]))
    } else {
        None
    }
}

/// The carriage return that ends `line`, if one does.
pub open spec fn carriage(line: Seq<char>) -> Seq<char> {
    if line.len() > 0 && line.last() == '\r' {
        seq!['\r']
    } else {
        Seq::empty()
    }
}

/// What line `number` reads after rewriting: where its reference is pinned,
/// what stood before the reference, then the repository, `@`, the commit,
/// and the old locator as a comment, and the carriage return if the line
/// ended in one; else the line as it was.
pub open spec fn rewritten_line(
    line: Seq<char>,
    number: nat,
    uses: Seq<Occurrence>,
    pins: Map<Seq<char>, Pinned>,
) -> Seq<char> {
    match pin_for(number, uses, pins) {
        Some((occurrence, pinned)) => occurrence.prefix + pinned_text(
            pinned.action.repository,
            pinned.sha,
            pinned.original_ref,
        ) + carriage(line),
        None => line,
    }
}

/// The lines after rewriting, the first being line 1.
pub open spec fn rewritten_lines(
    lines: Seq<Seq<char>>,
    uses: Seq<Occurrence>,
    pins: Map<Seq<char>, Pinned>,
) -> Seq<Seq<char>> {
    Seq::new(lines.len(), |i: int| rewritten_line(lines[i], (i + 1) as nat, uses, pins))
}

/// The text made of `lines`, with a line feed between one line and the next.
pub open spec fn joined(lines: Seq<Seq<char>>) -> Seq<char>
    decreases lines.len(),
{
    if lines.len() == 0 {
        Seq::empty()
    } else if lines.len() == 1 {
        lines[0]
    } else {
        joined(lines.drop_last()) + seq!['\n'] + lines.last()
    }
}

/// The text after rewriting.
pub open spec fn rewritten(text: Seq<char>, uses: Seq<Occurrence>, pins: Map<Seq<char>, Pinned>) -> Seq<
    char,
> {
    joined(rewritten_lines(lines(text), uses, pins))
}

/// The record of the substitution on line `number`, if there is one.
pub open spec fn audit_of(
    file: Seq<char>,
    number: nat,
    uses: Seq<Occurrence>,
    pins: Map<Seq<char>, Pinned>,
) -> Option<Audit> {
    match pin_for(number, uses, pins) {
        Some((occurrence, pinned)) => Some(
            Audit {
                file,
                action: occurrence.action.repository,
                old_ref: occurrence.action.locator,
                sha: pinned.sha,
            },
        ),
        None => None,
    }
}

/// The records of the substitutions on the first `count` lines, in the order
/// of the lines.
pub open spec fn audits(
    file: Seq<char>,
    count: nat,
    uses: Seq<Occurrence>,
    pins: Map<Seq<char>, Pinned>,
) -> Seq<Audit>
    decreases count,
{
    if count == 0 {
        Seq::empty()
    } else {
        let before = audits(file, (count - 1) as nat, uses, pins);
        match audit_of(file, count, uses, pins) {
            Some(audit) => before.push(audit),
            None => before,
        }
    }
}

/// `first_on_line` stops at a reference on the line, or at the end.
pub proof fn lemma_first_on_line(uses: Seq<Occurrence>, number: nat, from: int)
    requires
        0 <= from <= uses.len(),
    ensures
        from <= first_on_line(uses, number, from) <= uses.len(),
        first_on_line(uses, number, from) < uses.len() ==> uses[first_on_line(
            uses,
            number,
            from,
        )].line_number == number,
    decreases uses.len() - from,
{
    if from < uses.len() && uses[from].line_number != number {
        lemma_first_on_line(uses, number, from + 1);
    }
}

/// Lines put together again are the text they were split from: behind
/// `before`, the lines of `text` from `from` on read as the text from there.
pub proof fn lemma_joined_from(before: Seq<Seq<char>>, text: Seq<char>, from: int)
    requires
        0 <= from <= text.len(),
    ensures
        joined(before + lines_from(text, from)) == (if before.len() == 0 {
            Seq::<char>::empty()
        } else {
            joined(before) + seq!['\n']
        }) + text.subrange(from, text.len() as int),
    decreases text.len() - from,
{
    let n = text.len() as int;
    let k = find(text, CharClass::Newline, from, n);
    lemma_find(text, CharClass::Newline, from, n);
    let line = text.subrange(from, k);
    let lead = if before.len() == 0 {
        Seq::<char>::empty()
    } else {
        joined(before) + seq!['\n']
    };
    assert(before.push(line).drop_last() =~= before);
    assert(joined(before.push(line)) =~= lead + line);
    if k < n {
        lemma_joined_from(before.push(line), text, k + 1);
        assert(before + lines_from(text, from) =~= before.push(line) + lines_from(text, k + 1));
        assert(lead + line + seq!['\n'] + text.subrange(k + 1, n) =~= lead + text.subrange(
            from,
            n,
        ));
    } else {
        assert(before + lines_from(text, from) =~= before.push(line));
    }
}

/// Splitting a text into lines and joining them gives the text back.
pub proof fn lemma_join_lines(text: Seq<char>)
    ensures
        joined(lines(text)) == text,
{
    lemma_joined_from(Seq::empty(), text, 0);
    assert(Seq::<Seq<char>>::empty() + lines_from(text, 0) =~= lines(text));
    assert(text.subrange(0, text.len() as int) =~= text);
}

/// No substitution is recorded where no line has a pinned reference.
pub proof fn lemma_no_audits(
    file: Seq<char>,
    count: nat,
    uses: Seq<Occurrence>,
    pins: Map<Seq<char>, Pinned>,
)
    requires
        forall|number: nat| 1 <= number <= count ==> pin_for(number, uses, pins).is_none(),
    ensures
        audits(file, count, uses, pins) == Seq::<Audit>::empty(),
    decreases count,
{
    if count > 0 {
        lemma_no_audits(file, (count - 1) as nat, uses, pins);
        assert(pin_for(count, uses, pins).is_none());
    }
}

/// Rewriting changes nothing where it has nothing to put in: if `pins` holds
/// none of the references, the text stays as it is, to the last character,
/// and no substitution is recorded.
pub proof fn lemma_rewrite_without_pins(
    file: Seq<char>,
    text: Seq<char>,
    uses: Seq<Occurrence>,
    pins: Map<Seq<char>, Pinned>,
)
    requires
        forall|i: int| 0 <= i < uses.len() ==> !pins.contains_key((#[trigger] uses[i]).action.key()),
    ensures
        rewritten(text, uses, pins) == text,
        audits(file, lines(text).len(), uses, pins) == Seq::<Audit>::empty(),
{
    let ls = lines(text);
    assert forall|number: nat| pin_for(number, uses, pins).is_none() by {
        lemma_first_on_line(uses, number, 0);
    }
    assert(rewritten_lines(ls, uses, pins) =~= ls);
    lemma_join_lines(text);
    lemma_no_audits(file, ls.len(), uses, pins);
}

/// A line in which no reference was found reads the same after rewriting,
/// whatever was resolved.
pub proof fn lemma_other_lines_stay(text: Seq<char>, pins: Map<Seq<char>, Pinned>, i: int)
    requires
        0 <= i < lines(text).len(),
        occurrence(lines(text)[i], (i + 1) as nat).is_none(),
    ensures
        rewritten_lines(lines(text), occurrences(lines(text)), pins)[i] == lines(text)[i],
{
    let ls = lines(text);
    let uses = occurrences(ls);
    let number = (i + 1) as nat;
    let at = first_on_line(uses, number, 0);
    lemma_first_on_line(uses, number, 0);
    if at < uses.len() {
        lemma_occurrence_of_its_line(ls, at);
    }
}

/// A reference into the workflow's own repository is left alone: the line
/// that holds it is not among the references found, and reads the same
/// after rewriting, whatever was resolved.
pub proof fn lemma_local_reference_untouched(
    text: Seq<char>,
    pins: Map<Seq<char>, Pinned>,
    i: int,
)
    requires
        0 <= i < lines(text).len(),
        is_uses_line(lines(text)[i]),
        is_local_path(
            lines(text)[i].subrange(token_start(lines(text)[i]), repository_end(lines(text)[i])),
        ),
    ensures
        forall|j: int|
            0 <= j < occurrences(lines(text)).len() ==> (#[trigger] occurrences(
                lines(text),
            )[j]).line_number != i + 1,
        rewritten_lines(lines(text), occurrences(lines(text)), pins)[i] == lines(text)[i],
{
    let ls = lines(text);
    assert forall|j: int| 0 <= j < occurrences(ls).len() implies (#[trigger] occurrences(
        ls,
    )[j]).line_number != i + 1 by {
        lemma_occurrence_of_its_line(ls, j);
    }
    lemma_other_lines_stay(text, pins, i);
}

/// What is to be done with a workflow after rewriting.
#[derive(Debug)]
pub struct Rewrite {
    /// The file.
    pub path: String,
    /// The text after rewriting.
    pub content: String,
    /// How many references were pinned in it.
    pub substitutions: usize,
    /// Whether `content` is to be written to the file.
    pub write: bool,
    /// Where the file is to be copied to before it is written, if anywhere.
    pub backup_path: Option<String>,
}

/// The name of the copy that is kept of `path`.
pub open spec fn backup_name(path: Seq<char>) -> Seq<char> {
    path + ".bak"@
}

/// Computes [`first_on_line`] from the start, for the line that follows
/// `done` lines.
fn find_on_line(uses: &Vec<UsesLine>, done: usize) -> (r: usize)
    ensures
        r == first_on_line(views(uses@), (done + 1) as nat, 0),
        r <= uses.len(),
{
    let mut i: usize = 0;
    while i < uses.len() && !(uses[i].line_number > 0 && uses[i].line_number - 1 == done)
        invariant
            i <= uses.len(),
            first_on_line(views(uses@), (done + 1) as nat, 0) == first_on_line(
                views(uses@),
                (done + 1) as nat,
                i as int,
            ),
        decreases uses.len() - i,
    {
        i += 1;
    }
    i
}

/// Appends `v[from..to]` to `out`.
fn append_chars(out: &mut String, v: &Vec<char>, from: usize, to: usize)
    requires
        from <= to <= v.len(),
    ensures
        final(out)@ == old(out)@ + v@.subrange(from as int, to as int),
{
    let mut i: usize = from;
    while i < to
        invariant
            from <= i <= to <= v.len(),
            out@ == old(out)@ + v@.subrange(from as int, i as int),
        decreases to - i,
    {
        out.push(v[i]);
        i += 1;
        assert(v@.subrange(from as int, i as int) =~= v@.subrange(from as int, i - 1).push(
            v@[i - 1],
        ));
    }
}

/// Rewrites the text of `workflow`: each line whose reference `pinned_map`
/// holds gets the pinned reference in its place, every other line stays as
/// it is. One record per substitution is added to `results`.
pub fn rewrite_text(
    workflow: &WorkflowFile,
    pinned_map: &PinnedMap,
    results: &mut Vec<PinnedActionResult>,
) -> (r: String)
    ensures
        r@ == rewritten(workflow.content@, views(workflow.actions@), pinned_map@),
        audit_views(final(results)@) == audit_views(old(results)@) + audits(
            workflow.path@,
            lines(workflow.content@).len(),
            views(workflow.actions@),
            pinned_map@,
        ),
{
    let v = chars_of(workflow.content.as_str());
    let n = v.len();
    let ghost uses = views(workflow.actions@);
    let ghost pins = pinned_map@;
    let ghost file = workflow.path@;
    let mut out = String::new();
    let mut pos: usize = 0;
    let mut done: usize = 0;
    let ghost mut read: Seq<Seq<char>> = Seq::empty();
    assert(audit_views(results@) + audits(file, 0, uses, pins) =~= audit_views(results@));
    loop
        invariant_except_break
            pos <= n,
            done <= pos,
            done == read.len(),
            lines(v@) == read + lines_from(v@, pos as int),
            out@ == if done == 0 {
                Seq::<char>::empty()
            } else {
                joined(rewritten_lines(read, uses, pins)) + seq!['\n']
            },
            audit_views(results@) == audit_views(old(results)@) + audits(
                file,
                done as nat,
                uses,
                pins,
            ),
        invariant
            n == v.len(),
            v@ == workflow.content@,
            uses == views(workflow.actions@),
            pins == pinned_map@,
            file == workflow.path@,
        ensures
            out@ == joined(rewritten_lines(lines(v@), uses, pins)),
            audit_views(results@) == audit_views(old(results)@) + audits(
                file,
                lines(v@).len(),
                uses,
                pins,
            ),
        decreases n - pos,
    {
        let k = find_in(&v, CharClass::Newline, pos, n);
        let ghost line = v@.subrange(pos as int, k as int);
        let ghost number = (done + 1) as nat;
        let ghost start = out@;
        let ghost recorded = audit_views(results@);
        let at = find_on_line(&workflow.actions, done);
        let mut replaced = false;
        if at < workflow.actions.len() {
            let uses_line = &workflow.actions[at];
            assert(uses[at as int] == uses_line@);
            let key = uses_line.action.to_string();
            match pinned_map.get(key.as_str()) {
                Some(pinned) => {
                    out.append(uses_line.prefix.as_str());
                    let text = pinned.format_uses_line();
                    out.append(text.as_str());
                    if pos < k && v[k - 1] == '\r' {
                        out.push('\r');
                    }
                    let record = PinnedActionResult {
                        file: workflow.path.clone(),
                        action: uses_line.action.repository.clone(),
                        old_ref: uses_line.action.reference.clone(),
                        sha: pinned.sha.clone(),
                    };
                    proof {
                        assert(audit_views(results@.push(record)) =~= recorded.push(record@));
                    }
                    results.push(record);
                    replaced = true;
                },
                None => {},
            }
        }
        if !replaced {
            append_chars(&mut out, &v, pos, k);
        }
        proof {
            let now = rewritten_line(line, number, uses, pins);
            assert(out@ =~= start + now);
            let so_far = rewritten_lines(read, uses, pins);
            let next = rewritten_lines(read.push(line), uses, pins);
            assert(next =~= so_far.push(now));
            assert(next.drop_last() =~= so_far);
            assert(out@ =~= joined(next));
            assert(audit_views(results@) =~= audit_views(old(results)@) + audits(
                file,
                number,
                uses,
                pins,
            ));
            if k < n {
                assert(read + (seq![line] + lines_from(v@, k + 1)) =~= read.push(line)
                    + lines_from(v@, k + 1));
            } else {
                assert(read + seq![line] =~= read.push(line));
            }
            read = read.push(line);
        }
        if k == n {
            break ;
        }
        out.push('\n');
        pos = k + 1;
        done = done + 1;
    }
    out
}


/// `std::path::PathBuf`, the path of the directory in which the workflows
/// lie. Nothing is said of what a path holds: it is carried through.
#[verifier::external_type_specification]
#[verifier::external_body]
pub struct ExPathBuf(PathBuf);

/// Whether a file of this name is a workflow: the name ends in `.yml` or
/// `.yaml`, and more than that stands before the dot.
pub open spec fn is_workflow_name(name: Seq<char>) -> bool {
    ||| name.len() > 4 && ends_with(name, ".yml"@)
    ||| name.len() > 5 && ends_with(name, ".yaml"@)
}

/// Decides [`is_workflow_name`] for the name of a file, without its
/// directory.
pub fn is_workflow_file(file_name: &str) -> (r: bool)
    ensures
        r == is_workflow_name(file_name@),
{
    let name = chars_of(file_name);
    let short = chars_of(".yml");
    let long = chars_of(".yaml");
    (name.len() > 4 && ends_in(&name, &short)) || (name.len() > 5 && ends_in(&name, &long))
}

/// One file that was found: its path, and its text unless it could not be
/// read.
#[derive(Debug)]
pub struct SourceFile {
    pub path: String,
    pub content: Option<String>,
}

/// How many of `sources` could not be read.
pub open spec fn unread(sources: Seq<SourceFile>) -> nat
    decreases sources.len(),
{
    if sources.len() == 0 {
        0
    } else if sources.last().content is None {
        unread(sources.drop_last()) + 1
    } else {
        unread(sources.drop_last())
    }
}

/// The paths and texts of those of `sources` that were read, in their order.
pub open spec fn readable(sources: Seq<SourceFile>) -> Seq<(Seq<char>, Seq<char>)>
    decreases sources.len(),
{
    if sources.len() == 0 {
        Seq::empty()
    } else {
        let before = readable(sources.drop_last());
        match sources.last().content {
            Some(content) => before.push((sources.last().path@, content@)),
            None => before,
        }
    }
}

/// The paths and texts of `files`.
pub open spec fn texts(files: Seq<WorkflowFile>) -> Seq<(Seq<char>, Seq<char>)> {
    files.map_values(|f: WorkflowFile| (f.path@, f.content@))
}

/// Whether one of `found` has the text `key`.
pub open spec fn has_key(found: Seq<Reference>, key: Seq<char>) -> bool {
    exists|i: int| 0 <= i < found.len() && (#[trigger] found[i]).key() == key
}

/// `found`, and behind it the references of `uses` that are not pinned and
/// whose text none before them has, in their order.
pub open spec fn collected(found: Seq<Reference>, uses: Seq<UsesLine>) -> Seq<Reference>
    decreases uses.len(),
{
    if uses.len() == 0 {
        found
    } else {
        let before = collected(found, uses.drop_last());
        let last = uses.last();
        if !last.action.is_sha && !has_key(before, last.action.key()) {
            before.push(last.action@)
        } else {
            before
        }
    }
}

/// The references of `files` that are to be resolved: those that are not
/// pinned, each text once, in the order in which they are first met.
pub open spec fn collected_all(files: Seq<WorkflowFile>) -> Seq<Reference>
    decreases files.len(),
{
    if files.len() == 0 {
        Seq::empty()
    } else {
        collected(collected_all(files.drop_last()), files.last().actions@)
    }
}

/// Whether no two of `found` have the same text.
pub open spec fn distinct_keys(found: Seq<Reference>) -> bool {
    forall|i: int, j: int|
        0 <= i < j < found.len() ==> (#[trigger] found[i]).key() != (#[trigger] found[j]).key()
}

/// Whether `reference` is a reference of `files` that is not pinned.
pub open spec fn is_unpinned_in(files: Seq<WorkflowFile>, reference: Reference) -> bool {
    exists|f: int, i: int|
        0 <= f < files.len() && 0 <= i < files[f].actions.len() && !(#[trigger] files[f].actions[i]).action.is_sha
            && files[f].actions[i].action@ == reference
}

/// Collecting adds behind what was found and changes nothing of it.
pub proof fn lemma_collected_extends(found: Seq<Reference>, uses: Seq<UsesLine>)
    ensures
        found.len() <= collected(found, uses).len(),
        forall|i: int| 0 <= i < found.len() ==> collected(found, uses)[i] == found[i],
        forall|key: Seq<char>| has_key(found, key) ==> has_key(collected(found, uses), key),
    decreases uses.len(),
{
    if uses.len() > 0 {
        lemma_collected_extends(found, uses.drop_last());
    }
    let all = collected(found, uses);
    assert forall|key: Seq<char>| has_key(found, key) implies has_key(all, key) by {
        let i = choose|i: int| 0 <= i < found.len() && (#[trigger] found[i]).key() == key;
        assert(all[i].key() == key);
    }
}

/// Collecting keeps the texts apart.
pub proof fn lemma_collected_distinct(found: Seq<Reference>, uses: Seq<UsesLine>)
    requires
        distinct_keys(found),
    ensures
        distinct_keys(collected(found, uses)),
    decreases uses.len(),
{
    if uses.len() > 0 {
        lemma_collected_distinct(found, uses.drop_last());
        let before = collected(found, uses.drop_last());
        let all = collected(found, uses);
        assert forall|i: int, j: int| 0 <= i < j < all.len() implies (#[trigger] all[i]).key() != (
        #[trigger] all[j]).key() by {
            if j < before.len() {
                assert(before[i].key() != before[j].key());
            } else {
                assert(before[i].key() == all[i].key());
            }
        }
    }
}

/// Collecting leaves out no reference that is not pinned.
pub proof fn lemma_collected_covers(found: Seq<Reference>, uses: Seq<UsesLine>, i: int)
    requires
        0 <= i < uses.len(),
        !uses[i].action.is_sha,
    ensures
        has_key(collected(found, uses), uses[i].action.key()),
    decreases uses.len(),
{
    let before = collected(found, uses.drop_last());
    let all = collected(found, uses);
    let key = uses[i].action.key();
    if i < uses.len() - 1 {
        lemma_collected_covers(found, uses.drop_last(), i);
        let at = choose|at: int| 0 <= at < before.len() && (#[trigger] before[at]).key() == key;
        assert(all[at].key() == key);
    } else if !has_key(before, key) {
        assert(all[before.len() as int].key() == key);
    }
}

/// What collecting adds are references that are not pinned.
pub proof fn lemma_collected_source(found: Seq<Reference>, uses: Seq<UsesLine>, j: int)
    requires
        found.len() <= j < collected(found, uses).len(),
    ensures
        exists|i: int|
            0 <= i < uses.len() && !(#[trigger] uses[i]).action.is_sha && uses[i].action@
                == collected(found, uses)[j],
    decreases uses.len(),
{
    lemma_collected_extends(found, uses);
    if uses.len() > 0 {
        let before = collected(found, uses.drop_last());
        lemma_collected_extends(found, uses.drop_last());
        if j < before.len() {
            lemma_collected_source(found, uses.drop_last(), j);
            let i = choose|i: int|
                0 <= i < uses.drop_last().len() && !(#[trigger] uses.drop_last()[i]).action.is_sha
                    && uses.drop_last()[i].action@ == before[j];
            assert(uses[i] == uses.drop_last()[i]);
        } else {
            assert(uses[uses.len() - 1].action@ == collected(found, uses)[j]);
        }
    }
}

/// Each reference is resolved once: of the references that are to be
/// resolved no two have the same text, each is a reference of the files that
/// is not pinned, and every such reference has its text among them.
pub proof fn lemma_collected_once(files: Seq<WorkflowFile>)
    ensures
        distinct_keys(collected_all(files)),
        forall|j: int|
            0 <= j < collected_all(files).len() ==> is_unpinned_in(
                files,
                #[trigger] collected_all(files)[j],
            ),
        forall|f: int, i: int|
            0 <= f < files.len() && 0 <= i < files[f].actions.len() && !(
            #[trigger] files[f].actions[i]).action.is_sha ==> has_key(
                collected_all(files),
                files[f].actions[i].action.key(),
            ),
    decreases files.len(),
{
    if files.len() > 0 {
        let rest = files.drop_last();
        let before = collected_all(rest);
        let uses = files.last().actions@;
        let all = collected_all(files);
        lemma_collected_once(rest);
        lemma_collected_distinct(before, uses);
        lemma_collected_extends(before, uses);
        assert forall|j: int| 0 <= j < all.len() implies is_unpinned_in(files, #[trigger] all[j]) by {
            if j < before.len() {
                assert(is_unpinned_in(rest, before[j]));
                let (f, i) = choose|f: int, i: int|
                    0 <= f < rest.len() && 0 <= i < rest[f].actions.len() && !(
                    #[trigger] rest[f].actions[i]).action.is_sha && rest[f].actions[i].action@
                        == before[j];
                assert(files[f] == rest[f]);
                assert(!files[f].actions[i].action.is_sha);
            } else {
                lemma_collected_source(before, uses, j);
                let i = choose|i: int|
                    0 <= i < uses.len() && !(#[trigger] uses[i]).action.is_sha && uses[i].action@
                        == all[j];
                assert(!files[files.len() - 1].actions[i].action.is_sha);
            }
        }
        assert forall|f: int, i: int|
            0 <= f < files.len() && 0 <= i < files[f].actions.len() && !(
            #[trigger] files[f].actions[i]).action.is_sha implies has_key(
            all,
            files[f].actions[i].action.key(),
        ) by {
            if f < files.len() - 1 {
                assert(rest[f] == files[f]);
                assert(!rest[f].actions[i].action.is_sha);
            } else {
                lemma_collected_covers(before, uses, i);
            }
        }
    }
}

/// What is to be resolved needs resolving: each of the references collected
/// from sound files has a sound repository, leads out of the workflow's own
/// repository, and is not pinned to a commit. So a reference into the
/// workflow's own repository is never looked up, nor a commit hash.
pub proof fn lemma_collected_sound(files: Seq<WorkflowFile>, j: int)
    requires
        forall|f: int| 0 <= f < files.len() ==> (#[trigger] files[f]).wf(),
        0 <= j < collected_all(files).len(),
    ensures
        valid_repository(collected_all(files)[j].repository),
        !is_local_path(collected_all(files)[j].repository),
        !is_commit_hash(collected_all(files)[j].locator),
{
    lemma_collected_once(files);
    let reference = collected_all(files)[j];
    assert(is_unpinned_in(files, reference));
    let (f, i) = choose|f: int, i: int|
        0 <= f < files.len() && 0 <= i < files[f].actions.len() && !(
        #[trigger] files[f].actions[i]).action.is_sha && files[f].actions[i].action@ == reference;
    assert(files[f].wf());
    assert(files[f].actions[i].action.wf());
    let found = occurrences(lines(files[f].content@));
    assert(found[i] == views(files[f].actions@)[i]);
    lemma_no_local_occurrence(lines(files[f].content@), i);
}

/// Whether every reference of `outcomes` can stand in a workflow and is not
/// pinned: its repository is sound, and its locator is no commit hash.
pub open spec fn of_unpinned(outcomes: Seq<(ActionRef, Result<String, ResolveError>)>) -> bool {
    forall|i: int|
        0 <= i < outcomes.len() ==> valid_repository((#[trigger] outcomes[i]).0@.repository)
            && !is_commit_hash(outcomes[i].0@.locator)
}

/// A reference that is pinned to a commit stays as it is: where only
/// references that are not pinned were resolved, nothing is put in its
/// place.
pub proof fn lemma_commit_stays(
    outcomes: Seq<(ActionRef, Result<String, ResolveError>)>,
    action: Reference,
)
    requires
        of_unpinned(outcomes),
        valid_repository(action.repository),
        is_commit_hash(action.locator),
    ensures
        !pins_of(outcomes).contains_key(action.key()),
{
    if pins_of(outcomes).contains_key(action.key()) {
        lemma_pin_entry(outcomes, action.key());
        let i = choose|i: int|
            0 <= i < outcomes.len() && (#[trigger] outcomes[i]).0.key() == action.key()
                && outcomes[i].1 is Ok && pins_of(outcomes)[action.key()] == pin(
                outcomes[i].0@,
                outcomes[i].1->Ok_0@,
            );
        lemma_key_identity(outcomes[i].0@, action);
    }
}

/// Rewriting a workflow whose references are all pinned to commits gives the
/// same text, to the last character, and records no substitution: none of
/// its references is to be resolved, and whatever else was resolved is not
/// put in their place.
pub proof fn lemma_pinned_workflow_is_fixed(
    workflow: WorkflowFile,
    outcomes: Seq<(ActionRef, Result<String, ResolveError>)>,
)
    requires
        of_unpinned(outcomes),
        forall|i: int|
            0 <= i < workflow.actions.len() ==> (#[trigger] workflow.actions[i]).action.wf()
                && workflow.actions[i].action.is_sha,
    ensures
        collected(Seq::empty(), workflow.actions@) == Seq::<Reference>::empty(),
        rewritten(workflow.content@, views(workflow.actions@), pins_of(outcomes))
            == workflow.content@,
        audits(
            workflow.path@,
            lines(workflow.content@).len(),
            views(workflow.actions@),
            pins_of(outcomes),
        ) == Seq::<Audit>::empty(),
{
    let uses = views(workflow.actions@);
    let none = Seq::<Reference>::empty();
    if collected(none, workflow.actions@).len() > 0 {
        lemma_collected_source(none, workflow.actions@, 0);
    }
    assert(collected(none, workflow.actions@) =~= none);
    assert forall|i: int| 0 <= i < uses.len() implies !pins_of(outcomes).contains_key(
        (#[trigger] uses[i]).action.key(),
    ) by {
        lemma_commit_stays(outcomes, workflow.actions[i].action@);
    }
    lemma_rewrite_without_pins(workflow.path@, workflow.content@, uses, pins_of(outcomes));
}

/// Whether the references of `outcomes` can stand in a workflow: their
/// repositories are sound.
pub open spec fn of_sound(outcomes: Seq<(ActionRef, Result<String, ResolveError>)>) -> bool {
    forall|i: int| 0 <= i < outcomes.len() ==> valid_repository((#[trigger] outcomes[i]).0@.repository)
}

/// What `pins_of` holds under a text is the pin of a reference with that
/// text to the commit it was resolved to.
pub proof fn lemma_pin_entry(
    outcomes: Seq<(ActionRef, Result<String, ResolveError>)>,
    key: Seq<char>,
)
    requires
        pins_of(outcomes).contains_key(key),
    ensures
        exists|i: int|
            0 <= i < outcomes.len() && (#[trigger] outcomes[i]).0.key() == key && outcomes[i].1 is Ok
                && pins_of(outcomes)[key] == pin(outcomes[i].0@, outcomes[i].1->Ok_0@),
    decreases outcomes.len(),
{
    if outcomes.len() > 0 {
        let rest = outcomes.drop_last();
        if outcomes.last().1 is Ok && outcomes.last().0.key() == key {
            assert(outcomes[outcomes.len() - 1].0.key() == key);
        } else {
            lemma_pin_entry(rest, key);
            let i = choose|i: int|
                0 <= i < rest.len() && (#[trigger] rest[i]).0.key() == key && rest[i].1 is Ok
                    && pins_of(rest)[key] == pin(rest[i].0@, rest[i].1->Ok_0@);
            assert(outcomes[i] == rest[i]);
        }
    }
}

/// A line whose reference was resolved reads, after rewriting, as it did up
/// to the reference, then the repository, `@`, the commit, and the old
/// locator as a comment; a carriage return that ended the line ends it
/// again.
pub proof fn lemma_substitution(
    text: Seq<char>,
    outcomes: Seq<(ActionRef, Result<String, ResolveError>)>,
    i: int,
)
    requires
        of_sound(outcomes),
        0 <= i < lines(text).len(),
        occurrence(lines(text)[i], (i + 1) as nat) matches Some(o) && pins_of(
            outcomes,
        ).contains_key(o.action.key()),
    ensures
        ({
            let line = lines(text)[i];
            let o = occurrence(line, (i + 1) as nat).unwrap();
            rewritten_lines(lines(text), occurrences(lines(text)), pins_of(outcomes))[i]
                == line.subrange(0, token_start(line)) + pinned_text(
                o.action.repository,
                pins_of(outcomes)[o.action.key()].sha,
                o.action.locator,
            ) + carriage(line)
        }),
{
    let ls = lines(text);
    let uses = occurrences(ls);
    let number = (i + 1) as nat;
    let o = occurrence(ls[i], number).unwrap();
    let pins = pins_of(outcomes);
    lemma_occurrence_found(ls, i);
    let at = first_on_line(uses, number, 0);
    lemma_first_on_line(uses, number, 0);
    lemma_occurrence_of_its_line(ls, at);
    assert(uses[at] == o);
    lemma_pin_entry(outcomes, o.action.key());
    let j = choose|j: int|
        0 <= j < outcomes.len() && (#[trigger] outcomes[j]).0.key() == o.action.key()
            && outcomes[j].1 is Ok && pins[o.action.key()] == pin(
            outcomes[j].0@,
            outcomes[j].1->Ok_0@,
        );
    lemma_occurrence_is_sound(ls[i]);
    lemma_key_identity(outcomes[j].0@, o.action);
}

/// A line in which a reference is found has it among the references of the
/// text.
pub proof fn lemma_occurrence_found(lines: Seq<Seq<char>>, i: int)
    requires
        0 <= i < lines.len(),
        occurrence(lines[i], (i + 1) as nat).is_some(),
    ensures
        first_on_line(occurrences(lines), (i + 1) as nat, 0) < occurrences(lines).len(),
    decreases lines.len(),
{
    let uses = occurrences(lines);
    let before = occurrences(lines.drop_last());
    let number = (i + 1) as nat;
    if i < lines.len() - 1 {
        lemma_occurrence_found(lines.drop_last(), i);
        lemma_first_on_line(before, number, 0);
        let at = first_on_line(before, number, 0);
        assert(uses[at] == before[at]);
        lemma_first_on_line_is_first(uses, number, 0, at);
    } else {
        assert(uses.last().line_number == number);
        lemma_first_on_line_is_first(uses, number, 0, uses.len() - 1);
    }
}

/// `first_on_line` stops no later than at any reference on the line.
pub proof fn lemma_first_on_line_is_first(uses: Seq<Occurrence>, number: nat, from: int, at: int)
    requires
        0 <= from <= at < uses.len(),
        uses[at].line_number == number,
    ensures
        first_on_line(uses, number, from) <= at,
    decreases uses.len() - from,
{
    if from < at && uses[from].line_number != number {
        lemma_first_on_line_is_first(uses, number, from + 1, at);
    }
}

/// No line holds a line feed.
pub proof fn lemma_lines_hold_no_feed(text: Seq<char>, from: int, i: int)
    requires
        0 <= from <= text.len(),
        0 <= i < lines_from(text, from).len(),
    ensures
        free_of(lines_from(text, from)[i], CharClass::Newline, 0, lines_from(text, from)[i].len() as int),
    decreases text.len() - from,
{
    let n = text.len() as int;
    let k = find(text, CharClass::Newline, from, n);
    lemma_find(text, CharClass::Newline, from, n);
    let line = text.subrange(from, k);
    assert forall|j: int| 0 <= j < line.len() implies !CharClass::Newline.has(#[trigger] line[j]) by {
        assert(line[j] == text[from + j]);
    }
    if k < n && i > 0 {
        lemma_lines_hold_no_feed(text, k + 1, i - 1);
    }
}

/// Whether `text` ends with a line feed.
pub open spec fn ends_with_feed(text: Seq<char>) -> bool {
    text.len() > 0 && text.last() == '\n'
}

/// The rewritten text ends with a line feed if and only if the text did.
pub proof fn lemma_final_feed_kept(
    text: Seq<char>,
    outcomes: Seq<(ActionRef, Result<String, ResolveError>)>,
)
    requires
        of_sound(outcomes),
    ensures
        ends_with_feed(rewritten(text, occurrences(lines(text)), pins_of(outcomes)))
            == ends_with_feed(text),
{
    let ls = lines(text);
    let uses = occurrences(ls);
    let pins = pins_of(outcomes);
    let after = rewritten_lines(ls, uses, pins);
    let last = ls.len() - 1;
    lemma_join_lines(text);
    lemma_lines_hold_no_feed(text, 0, last);
    let line = ls[last];
    let number = (last + 1) as nat;
    if line.len() > 0 {
        assert(!CharClass::Newline.has(line[line.len() - 1]));
    }
    match occurrence(line, number) {
        Some(o) => {
            if pins.contains_key(o.action.key()) {
                lemma_substitution(text, outcomes, last);
                lemma_occurrence_is_sound(line);
                let locator = o.action.locator;
                assert(!CharClass::TokenEnd.has(locator[locator.len() - 1]));
                let put = line.subrange(0, token_start(line)) + pinned_text(
                    o.action.repository,
                    pins[o.action.key()].sha,
                    locator,
                ) + carriage(line);
                assert(after[last] == put);
                assert(put.last() == if carriage(line).len() > 0 {
                    '\r'
                } else {
                    locator.last()
                });
            } else {
                lemma_occurrence_found(ls, last);
                lemma_first_on_line(uses, number, 0);
                lemma_occurrence_of_its_line(ls, first_on_line(uses, number, 0));
            }
        },
        None => {
            lemma_other_lines_stay(text, pins, last);
        },
    }
    assert(after.last() == after[last]);
    assert(ls.last() == line);
}

/// How many references `files` hold.
pub open spec fn total_found(files: Seq<WorkflowFile>) -> nat
    decreases files.len(),
{
    if files.len() == 0 {
        0
    } else {
        total_found(files.drop_last()) + files.last().actions@.len()
    }
}

/// How many references of `files` are pinned to a commit already.
pub open spec fn total_pinned(files: Seq<WorkflowFile>) -> nat
    decreases files.len(),
{
    if files.len() == 0 {
        0
    } else {
        total_pinned(files.drop_last()) + pinned(files.last().actions@).len()
    }
}

/// How many of `outcomes` are failures.
pub open spec fn failures(outcomes: Seq<(ActionRef, Result<String, ResolveError>)>) -> nat
    decreases outcomes.len(),
{
    if outcomes.len() == 0 {
        0
    } else if outcomes.last().1 is Err {
        failures(outcomes.drop_last()) + 1
    } else {
        failures(outcomes.drop_last())
    }
}

/// What a reference is pinned to when it is resolved to `sha`.
pub open spec fn pin(action: Reference, sha: Seq<char>) -> Pinned {
    Pinned { action, sha, original_ref: action.locator }
}

/// The pinned references that `outcomes` give: each reference that was
/// resolved, under its text; of two with one text the later one.
pub open spec fn pins_of(outcomes: Seq<(ActionRef, Result<String, ResolveError>)>) -> Map<
    Seq<char>,
    Pinned,
>
    decreases outcomes.len(),
{
    if outcomes.len() == 0 {
        Map::empty()
    } else {
        let before = pins_of(outcomes.drop_last());
        match outcomes.last().1 {
            Ok(sha) => before.insert(outcomes.last().0.key(), pin(outcomes.last().0@, sha@)),
            Err(_) => before,
        }
    }
}

/// The records of the substitutions in `files`, file after file.
pub open spec fn all_audits(files: Seq<WorkflowFile>, pins: Map<Seq<char>, Pinned>) -> Seq<Audit>
    decreases files.len(),
{
    if files.len() == 0 {
        Seq::empty()
    } else {
        all_audits(files.drop_last(), pins) + audits(
            files.last().path@,
            lines(files.last().content@).len(),
            views(files.last().actions@),
            pins,
        )
    }
}

/// The colour in which a count is shown.
#[derive(Clone, Copy, Debug, PartialEq, Eq, Structural)]
pub enum Tone {
    Plain,
    Good,
    Bad,
}

/// One line of the summary: what is counted, the count, and how it is shown.
#[derive(Debug)]
pub struct SummaryRow {
    pub label: String,
    pub value: usize,
    pub tone: Tone,
}

/// How a run ended.
#[derive(Clone, Copy, Debug, PartialEq, Eq, Structural)]
pub enum Verdict {
    /// Nothing was written, by request.
    DryRun,
    /// References were pinned.
    Pinned,
    /// There was nothing to pin.
    NothingToPin,
}

impl Verdict {
    /// What the verdict reads in the summary.
    pub open spec fn text(self) -> Seq<char> {
        match self {
            Verdict::DryRun => "Dry run mode - no files were modified"@,
            Verdict::Pinned => "All unpinned actions have been pinned to commit SHAs"@,
            Verdict::NothingToPin => "No actions needed pinning"@,
        }
    }

    /// What the verdict reads in the summary.
    pub fn message(&self) -> (r: String)
        ensures
            r@ == self.text(),
    {
        match self {
            Verdict::DryRun => String::from_str("Dry run mode - no files were modified"),
            Verdict::Pinned => String::from_str(
                "All unpinned actions have been pinned to commit SHAs",
            ),
            Verdict::NothingToPin => String::from_str("No actions needed pinning"),
        }
    }
}

/// What a run did, in numbers, and the record of each substitution.
#[derive(Debug)]
pub struct ProcessResults {
    /// The files that were read.
    pub files_processed: usize,
    /// The references in them.
    pub actions_found: usize,
    /// The references that were pinned.
    pub actions_pinned: usize,
    /// The references that were pinned to a commit before.
    pub already_pinned: usize,
    /// The files that could not be read or written, and the references that
    /// could not be resolved.
    pub errors: usize,
    /// One record per substitution.
    pub pinned_actions: Vec<PinnedActionResult>,
}

impl ProcessResults {
    /// Whether the run failed: it did if anything went wrong, whatever went
    /// right.
    pub open spec fn failed(&self) -> bool {
        self.errors > 0
    }

    /// The status with which the program ends: 1 after a run that failed,
    /// else 0.
    pub fn exit_code(&self) -> (r: i32)
        ensures
            r == if self.failed() {
                1i32
            } else {
                0i32
            },
    {
        if self.errors > 0 {
            1
        } else {
            0
        }
    }

    /// How the run ended: a dry run as such, else by whether anything was
    /// pinned.
    pub fn verdict(&self, dry_run: bool) -> (r: Verdict)
        ensures
            r == if dry_run {
                Verdict::DryRun
            } else if self.actions_pinned > 0 {
                Verdict::Pinned
            } else {
                Verdict::NothingToPin
            },
    {
        if dry_run {
            Verdict::DryRun
        } else if self.actions_pinned > 0 {
            Verdict::Pinned
        } else {
            Verdict::NothingToPin
        }
    }

    /// The five counts as the summary shows them, in its order. The count of
    /// pinned references is shown as good, the count of errors as good when
    /// it is 0 and as bad otherwise.
    pub fn summary_rows(&self) -> (r: Vec<SummaryRow>)
        ensures
            r.len() == 5,
            r[0].label@ == "Files processed:"@ && r[0].value == self.files_processed && r[0].tone
                == Tone::Plain,
            r[1].label@ == "Actions found:"@ && r[1].value == self.actions_found && r[1].tone
                == Tone::Plain,
            r[2].label@ == "Actions pinned:"@ && r[2].value == self.actions_pinned && r[2].tone
                == Tone::Good,
            r[3].label@ == "Already pinned:"@ && r[3].value == self.already_pinned && r[3].tone
                == Tone::Plain,
            r[4].label@ == "Errors:"@ && r[4].value == self.errors && r[4].tone == (if self.failed() {
                Tone::Bad
            } else {
                Tone::Good
            }),
    {
        let mut rows: Vec<SummaryRow> = Vec::new();
        rows.push(
            SummaryRow {
                label: String::from_str("Files processed:"),
                value: self.files_processed,
                tone: Tone::Plain,
            },
        );
        rows.push(
            SummaryRow {
                label: String::from_str("Actions found:"),
                value: self.actions_found,
                tone: Tone::Plain,
            },
        );
        rows.push(
            SummaryRow {
                label: String::from_str("Actions pinned:"),
                value: self.actions_pinned,
                tone: Tone::Good,
            },
        );
        rows.push(
            SummaryRow {
                label: String::from_str("Already pinned:"),
                value: self.already_pinned,
                tone: Tone::Plain,
            },
        );
        let tone = if self.errors > 0 {
            Tone::Bad
        } else {
            Tone::Good
        };
        rows.push(SummaryRow { label: String::from_str("Errors:"), value: self.errors, tone });
        rows
    }

    /// Takes note that the file of `rewrite` could not be written: that is
    /// one error more, and its references were not pinned after all. The
    /// records stay.
    pub fn write_failed(&mut self, rewrite: &Rewrite)
        requires
            old(self).errors < usize::MAX,
            rewrite.substitutions <= old(self).actions_pinned,
        ensures
            final(self).errors == old(self).errors + 1,
            final(self).actions_pinned == old(self).actions_pinned - rewrite.substitutions,
            final(self).files_processed == old(self).files_processed,
            final(self).actions_found == old(self).actions_found,
            final(self).already_pinned == old(self).already_pinned,
            final(self).pinned_actions == old(self).pinned_actions,
    {
        self.errors = self.errors + 1;
        self.actions_pinned = self.actions_pinned - rewrite.substitutions;
    }
}

/// The counts over the first `i` files are no more than the counts over all,
/// and no more references are pinned than there are.
pub proof fn lemma_totals_grow(files: Seq<WorkflowFile>, i: int)
    requires
        0 <= i <= files.len(),
    ensures
        total_found(files.take(i)) <= total_found(files),
        total_pinned(files.take(i)) <= total_found(files.take(i)),
    decreases files.len() + i,
{
    if i < files.len() {
        lemma_totals_grow(files.drop_last(), i);
        assert(files.drop_last().take(i) =~= files.take(i));
    } else {
        assert(files.take(i) =~= files);
        if i > 0 {
            lemma_totals_grow(files.drop_last(), i - 1);
            assert(files.drop_last().take(i - 1) =~= files.drop_last());
            files.last().actions@.lemma_filter_len(|u: UsesLine| u.action.is_sha);
        }
    }
}

/// The failures among the first `i` outcomes are no more than the failures
/// among all.
pub proof fn lemma_failures_grow(
    outcomes: Seq<(ActionRef, Result<String, ResolveError>)>,
    i: int,
)
    requires
        0 <= i <= outcomes.len(),
    ensures
        failures(outcomes.take(i)) <= failures(outcomes),
        failures(outcomes) <= outcomes.len(),
    decreases outcomes.len(),
{
    if outcomes.len() > 0 {
        if i < outcomes.len() {
            lemma_failures_grow(outcomes.drop_last(), i);
            assert(outcomes.drop_last().take(i) =~= outcomes.take(i));
        } else {
            assert(outcomes.take(i) =~= outcomes);
            lemma_failures_grow(outcomes.drop_last(), i - 1);
        }
    } else {
        assert(outcomes.take(i) =~= outcomes);
    }
}

/// The settings of a run.
#[derive(Debug)]
pub struct WorkflowProcessor {
    /// The directory that holds the workflows.
    pub workflows_dir: PathBuf,
    /// Whether files are left as they are.
    pub dry_run: bool,
    /// Whether a file is copied before it is written.
    pub backup: bool,
    /// How many lookups may be under way at once.
    pub concurrency: usize,
}

/// Whether `rewrite` is what is to be done with `workflow` under `settings`
/// and `pins`: the rewritten text, to be written unless the run is dry, after
/// a copy was made if one is asked for.
pub open spec fn is_rewrite_of(
    rewrite: Rewrite,
    settings: WorkflowProcessor,
    workflow: WorkflowFile,
    pins: Map<Seq<char>, Pinned>,
) -> bool {
    &&& rewrite.path@ == workflow.path@
    &&& rewrite.content@ == rewritten(workflow.content@, views(workflow.actions@), pins)
    &&& rewrite.substitutions == audits(
        workflow.path@,
        lines(workflow.content@).len(),
        views(workflow.actions@),
        pins,
    ).len()
    &&& rewrite.write == !settings.dry_run
    &&& match rewrite.backup_path {
        Some(to) => settings.backup && !settings.dry_run && to@ == backup_name(workflow.path@),
        None => !(settings.backup && !settings.dry_run),
    }
}

impl WorkflowProcessor {
    /// The settings of a run on `workflows_dir`.
    pub fn new(
        workflows_dir: PathBuf,
        dry_run: bool,
        backup: bool,
        _skip_pinned: bool,
        concurrency: usize,
    ) -> (r: Self)
        ensures
            r.workflows_dir == workflows_dir,
            r.dry_run == dry_run,
            r.backup == backup,
            r.concurrency == concurrency,
    {
        WorkflowProcessor { workflows_dir, dry_run, backup, concurrency }
    }

    /// Reads the references out of each of `sources` that was read, and
    /// counts those that were not.
    pub fn parse_workflows(sources: Vec<SourceFile>) -> (r: (Vec<WorkflowFile>, usize))
        ensures
            texts(r.0@) == readable(sources@),
            forall|i: int| 0 <= i < r.0.len() ==> (#[trigger] r.0[i]).wf(),
            r.1 == unread(sources@),
    {
        let mut workflows: Vec<WorkflowFile> = Vec::new();
        let mut failed: usize = 0;
        let mut i: usize = 0;
        while i < sources.len()
            invariant
                i <= sources.len(),
                failed <= i,
                failed == unread(sources@.take(i as int)),
                texts(workflows@) == readable(sources@.take(i as int)),
                forall|j: int| 0 <= j < workflows.len() ==> (#[trigger] workflows[j]).wf(),
            decreases sources.len() - i,
        {
            proof {
                assert(sources@.take(i + 1).drop_last() =~= sources@.take(i as int));
            }
            match &sources[i].content {
                Some(content) => {
                    let file = WorkflowFile::parse(sources[i].path.clone(), content.clone());
                    proof {
                        assert(texts(workflows@.push(file)) =~= texts(workflows@).push(
                            (file.path@, file.content@),
                        ));
                    }
                    workflows.push(file);
                },
                None => {
                    failed = failed + 1;
                },
            }
            i += 1;
        }
        assert(sources@.take(i as int) =~= sources@);
        (workflows, failed)
    }

    /// The references of `workflows` that are to be resolved: those that are
    /// not pinned, each text once, in the order in which they are first met.
    pub fn collect_unpinned(workflows: &Vec<WorkflowFile>) -> (r: Vec<ActionRef>)
        ensures
            references(r@) == collected_all(workflows@),
            forall|i: int| 0 <= i < r.len() ==> !(#[trigger] r[i]).is_sha,
    {
        let mut found: Vec<ActionRef> = Vec::new();
        let mut seen = StringHashSet::new();
        let mut f: usize = 0;
        while f < workflows.len()
            invariant
                f <= workflows.len(),
                references(found@) == collected_all(workflows@.take(f as int)),
                forall|key: Seq<char>| seen@.contains(key) <==> has_key(references(found@), key),
                forall|j: int| 0 <= j < found.len() ==> !(#[trigger] found[j]).is_sha,
            decreases workflows.len() - f,
        {
            let uses = &workflows[f].actions;
            let ghost start = references(found@);
            let mut i: usize = 0;
            while i < uses.len()
                invariant
                    i <= uses.len(),
                    references(found@) == collected(start, uses@.take(i as int)),
                    forall|key: Seq<char>|
                        seen@.contains(key) <==> has_key(references(found@), key),
                    forall|j: int| 0 <= j < found.len() ==> !(#[trigger] found[j]).is_sha,
                decreases uses.len() - i,
            {
                proof {
                    assert(uses@.take(i + 1).drop_last() =~= uses@.take(i as int));
                }
                let action = &uses[i].action;
                if !action.is_sha {
                    let key = action.to_string();
                    if !seen.contains(key.as_str()) {
                        let ghost before = references(found@);
                        seen.insert(key);
                        found.push(action.clone());
                        proof {
                            let after = references(found@);
                            assert(after =~= before.push(action@));
                            assert forall|k: Seq<char>| seen@.contains(k) <==> has_key(
                                after,
                                k,
                            ) by {
                                if has_key(after, k) {
                                    let j = choose|j: int|
                                        0 <= j < after.len() && (#[trigger] after[j]).key() == k;
                                    if j < before.len() {
                                        assert(before[j].key() == k);
                                    }
                                }
                                if has_key(before, k) {
                                    let j = choose|j: int|
                                        0 <= j < before.len() && (#[trigger] before[j]).key()
                                            == k;
                                    assert(after[j].key() == k);
                                }
                                if k == action.key() {
                                    assert(after[before.len() as int].key() == k);
                                }
                            }
                        }
                    }
                }
                i += 1;
            }
            proof {
                assert(uses@.take(i as int) =~= uses@);
                assert(workflows@.take(f + 1).drop_last() =~= workflows@.take(f as int));
            }
            f += 1;
        }
        assert(workflows@.take(f as int) =~= workflows@);
        found
    }

    /// Rewrites one workflow and says what is to be done with the result: it
    /// is written unless the run is dry, and the file is copied to
    /// `<path>.bak` first if a backup is asked for. One record for each
    /// substitution is added to `results`.
    pub fn rewrite_workflow(
        &self,
        workflow: &WorkflowFile,
        pinned_map: &PinnedMap,
        results: &mut Vec<PinnedActionResult>,
    ) -> (r: Rewrite)
        ensures
            is_rewrite_of(r, *self, *workflow, pinned_map@),
            audit_views(final(results)@) == audit_views(old(results)@) + audits(
                workflow.path@,
                lines(workflow.content@).len(),
                views(workflow.actions@),
                pinned_map@,
            ),
    {
        let before = results.len();
        let content = rewrite_text(workflow, pinned_map, results);
        proof {
            let added = audits(
                workflow.path@,
                lines(workflow.content@).len(),
                views(workflow.actions@),
                pinned_map@,
            );
            assert(audit_views(results@).len() == results@.len());
            assert(audit_views(old(results)@).len() == old(results)@.len());
            assert((audit_views(old(results)@) + added).len() == old(results)@.len() + added.len());
        }
        let substitutions = results.len() - before;
        let write = !self.dry_run;
        let backup_path = if self.backup && write {
            let mut to = workflow.path.clone();
            to.append(".bak");
            Some(to)
        } else {
            None
        };
        Rewrite { path: workflow.path.clone(), content, substitutions, write, backup_path }
    }

    /// Does what follows the resolution: pins each reference that
    /// `outcomes` resolved, rewrites every workflow, and draws up the
    /// summary.
    ///
    /// `unreadable` is the number of files that could not be read. Every
    /// failure among `outcomes` counts as one error more. The rewrites come
    /// in the order of `workflows`; the summary takes every one of them for
    /// done, so a file that then cannot be written is to be reported with
    /// [`ProcessResults::write_failed`].
    pub fn process(
        &self,
        workflows: &Vec<WorkflowFile>,
        unreadable: usize,
        outcomes: &Vec<(ActionRef, Result<String, ResolveError>)>,
    ) -> (r: (ProcessResults, Vec<Rewrite>))
        requires
            total_found(workflows@) <= usize::MAX,
            unreadable + failures(outcomes@) <= usize::MAX,
        ensures
            r.0.files_processed == workflows.len(),
            r.0.actions_found == total_found(workflows@),
            r.0.already_pinned == total_pinned(workflows@),
            r.0.errors == unreadable + failures(outcomes@),
            r.0.actions_pinned == r.0.pinned_actions.len(),
            audit_views(r.0.pinned_actions@) == all_audits(workflows@, pins_of(outcomes@)),
            r.1.len() == workflows.len(),
            forall|i: int|
                0 <= i < workflows.len() ==> is_rewrite_of(
                    #[trigger] r.1[i],
                    *self,
                    workflows[i],
                    pins_of(outcomes@),
                ),
    {
        let mut pinned_map = PinnedMap::new();
        let mut errors: usize = unreadable;
        let mut i: usize = 0;
        while i < outcomes.len()
            invariant
                i <= outcomes.len(),
                unreadable + failures(outcomes@) <= usize::MAX,
                errors == unreadable + failures(outcomes@.take(i as int)),
                pinned_map@ == pins_of(outcomes@.take(i as int)),
            decreases outcomes.len() - i,
        {
            proof {
                assert(outcomes@.take(i + 1).drop_last() =~= outcomes@.take(i as int));
                lemma_failures_grow(outcomes@, i + 1);
            }
            match &outcomes[i].1 {
                Ok(sha) => {
                    pinned_map.insert(PinnedAction::new(outcomes[i].0.clone(), sha.clone()));
                },
                Err(_) => {
                    errors = errors + 1;
                },
            }
            i += 1;
        }
        assert(outcomes@.take(i as int) =~= outcomes@);
        let mut actions_found: usize = 0;
        let mut already_pinned: usize = 0;
        let mut pinned_actions: Vec<PinnedActionResult> = Vec::new();
        let mut rewrites: Vec<Rewrite> = Vec::new();
        let ghost pins = pinned_map@;
        let mut f: usize = 0;
        assert(audit_views(pinned_actions@) =~= all_audits(workflows@.take(0), pins));
        while f < workflows.len()
            invariant
                f <= workflows.len(),
                pins == pinned_map@,
                total_found(workflows@) <= usize::MAX,
                actions_found == total_found(workflows@.take(f as int)),
                already_pinned == total_pinned(workflows@.take(f as int)),
                audit_views(pinned_actions@) == all_audits(workflows@.take(f as int), pins),
                rewrites.len() == f,
                forall|j: int|
                    0 <= j < f ==> is_rewrite_of(#[trigger] rewrites[j], *self, workflows[j], pins),
            decreases workflows.len() - f,
        {
            let workflow = &workflows[f];
            proof {
                assert(workflows@.take(f + 1).drop_last() =~= workflows@.take(f as int));
                lemma_totals_grow(workflows@, f + 1);
            }
            actions_found = actions_found + workflow.actions.len();
            already_pinned = already_pinned + workflow.pinned_count();
            let rewrite = self.rewrite_workflow(workflow, &pinned_map, &mut pinned_actions);
            rewrites.push(rewrite);
            f += 1;
        }
        assert(workflows@.take(f as int) =~= workflows@);
        let results = ProcessResults {
            files_processed: workflows.len(),
            actions_found,
            actions_pinned: pinned_actions.len(),
            already_pinned,
            errors,
            pinned_actions,
        };
        (results, rewrites)
    }
}

} // verus!
