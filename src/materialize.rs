//! The verified part of materializing a template: which files are written,
//! where, with what contents, which directories come first, and how the
//! outcomes of the file writes combine into one result.

use vstd::prelude::*;
use crate::casing::{join, join_words};
use crate::substitution::{replace_all, placeholder_tokens, PlaceholderSearcher, SubstitutionPlan, PLACEHOLDER_COUNT};
use crate::template::{TemplateStructure, TemplateStructureDirEntryData};

verus! {

broadcast use vstd::std_specs::vec::group_vec_axioms, vstd::seq::group_seq_axioms;

/// A file of the template, with the names of the folders above it.
pub struct FileJob {
    /// The template's folder names from the top down to the file's parent.
    pub ancestors: Vec<String>,
    pub file_name: String,
    /// Whether the file's contents get the placeholders replaced.
    pub inject_project_info: bool,
}

/// A file job as plain values: ancestors, name, injection flag.
pub type FileJobModel = (Seq<Seq<char>>, Seq<char>, bool);

impl View for FileJob {
    type V = FileJobModel;

    open spec fn view(&self) -> FileJobModel {
        (self.ancestors.deep_view(), self.file_name@, self.inject_project_info)
    }
}

/// The file jobs as plain values.
pub open spec fn jobs_view(js: Seq<FileJob>) -> Seq<FileJobModel> {
    Seq::new(js.len(), |i: int| js[i]@)
}

/// Every file under `es`, depth first in the order of the entries, each with
/// `ancestors` followed by the folders between `es` and the file.
pub open spec fn files_in(es: Seq<(String, TemplateStructureDirEntryData)>, ancestors: Seq<Seq<char>>) -> Seq<FileJobModel>
    decreases es,
{
    if es.len() == 0 {
        seq![]
    } else {
        let e = es.last();
        files_in(es.drop_last(), ancestors) + match e.1 {
            TemplateStructureDirEntryData::File { inject_project_info } => seq![(ancestors, e.0@, inject_project_info)],
            TemplateStructureDirEntryData::Folder { children, .. } => files_in(children@, ancestors.push(e.0@)),
        }
    }
}

/// `name` with the placeholders replaced by `plan`.
pub open spec fn shown(name: Seq<char>, plan: Seq<Seq<char>>) -> Seq<char> {
    replace_all(name, placeholder_tokens(), plan)
}

/// The directory a file goes into, below the destination root: each
/// ancestor with the placeholders replaced.
pub open spec fn destination_dir(job: FileJobModel, plan: Seq<Seq<char>>) -> Seq<Seq<char>> {
    Seq::new(job.0.len(), |i: int| shown(job.0[i], plan))
}

/// The path a file is written to, below the destination root.
pub open spec fn destination(job: FileJobModel, plan: Seq<Seq<char>>) -> Seq<Seq<char>> {
    destination_dir(job, plan).push(shown(job.1, plan))
}

/// What is written for a file whose template contents are `fetched`.
pub open spec fn written_contents(job: FileJobModel, plan: Seq<Seq<char>>, fetched: Seq<char>) -> Seq<char> {
    if job.2 {
        shown(fetched, plan)
    } else {
        fetched
    }
}

fn copy_strings(v: &Vec<String>) -> (r: Vec<String>)
    ensures
        r.deep_view() == v.deep_view(),
{
    let mut r: Vec<String> = Vec::new();
    let mut i: usize = 0;
    while i < v.len()
        invariant
            i <= v@.len(),
            r.deep_view() =~= v.deep_view().subrange(0, i as int),
        decreases v@.len() - i,
    {
        let ghost before = r.deep_view();
        r.push(v[i].clone());
        proof {
            assert(r.deep_view() =~= before.push(v@[i as int]@));
        }
        i = i + 1;
    }
    proof {
        assert(v.deep_view().subrange(0, i as int) =~= v.deep_view());
    }
    r
}

fn collect_files(es: &Vec<(String, TemplateStructureDirEntryData)>, ancestors: &Vec<String>, out: &mut Vec<FileJob>)
    ensures
        jobs_view(final(out)@) == jobs_view(old(out)@) + files_in(es@, ancestors.deep_view()),
    decreases es@,
{
    let ghost start = jobs_view(out@);
    let mut i: usize = 0;
    while i < es.len()
        invariant
            i <= es@.len(),
            jobs_view(out@) == start + files_in(es@.subrange(0, i as int), ancestors.deep_view()),
        decreases es@.len() - i,
    {
        let ghost prefix = es@.subrange(0, i as int + 1);
        proof {
            assert(prefix.drop_last() =~= es@.subrange(0, i as int));
            assert(prefix.last() == es@[i as int]);
        }
        let entry = &es[i];
        match &entry.1 {
            TemplateStructureDirEntryData::File { inject_project_info } => {
                let ghost before = out@;
                out.push(FileJob {
                    ancestors: copy_strings(ancestors),
                    file_name: entry.0.clone(),
                    inject_project_info: *inject_project_info,
                });
                proof {
                    assert(jobs_view(out@) =~= jobs_view(before).push(out@.last()@));
                    assert(jobs_view(out@) =~= start + files_in(prefix, ancestors.deep_view()));
                }
            },
            TemplateStructureDirEntryData::Folder { children, .. } => {
                let mut below = copy_strings(ancestors);
                let ghost b0 = below.deep_view();
                below.push(entry.0.clone());
                proof {
                    assert(below.deep_view() =~= b0.push(entry.0@));
                }
                collect_files(children, &below, out);
                proof {
                    assert(jobs_view(out@) =~= start + files_in(prefix, ancestors.deep_view()));
                }
            },
        }
        i = i + 1;
    }
    proof {
        assert(es@.subrange(0, i as int) =~= es@);
    }
}

/// Every file of the structure, depth first, with the template folders
/// above it. Folders only contribute to the paths: an empty folder gives no job.
pub fn plan_files(template_structure: &TemplateStructure) -> (r: Vec<FileJob>)
    ensures
        jobs_view(r@) == files_in(template_structure@, seq![]),
{
    let mut out: Vec<FileJob> = Vec::new();
    let top: Vec<String> = Vec::new();
    proof {
        assert(top.deep_view() =~= seq![]);
        assert(jobs_view(out@) =~= seq![]);
    }
    collect_files(template_structure, &top, &mut out);
    out
}

impl FileJob {
    /// The template folders above the file, joined by `/`: where the file
    /// is found inside the template.
    pub fn parent_path(&self) -> (r: String)
        ensures
            r@ == join(self.ancestors.deep_view(), "/"@),
    {
        join_words(&self.ancestors, "/")
    }

    /// The directory the file goes into, below the destination root.
    pub fn destination_dir(&self, searcher: &PlaceholderSearcher, plan: &SubstitutionPlan) -> (r: Vec<String>)
        requires
            searcher.wf(),
            plan@.len() == PLACEHOLDER_COUNT,
        ensures
            r.deep_view() == destination_dir(self@, plan@),
    {
        let mut r: Vec<String> = Vec::new();
        let mut i: usize = 0;
        while i < self.ancestors.len()
            invariant
                searcher.wf(),
                plan@.len() == PLACEHOLDER_COUNT,
                i <= self.ancestors@.len(),
                r.deep_view() =~= destination_dir(self@, plan@).subrange(0, i as int),
            decreases self.ancestors@.len() - i,
        {
            let s = searcher.substitute_with_plan(plan, self.ancestors[i].as_str());
            let ghost before = r.deep_view();
            r.push(s);
            proof {
                assert(r.deep_view() =~= before.push(s@));
            }
            i = i + 1;
        }
        r
    }

    /// The path the file is written to, below the destination root: the
    /// destination directory and the file's name, placeholders replaced in each.
    pub fn destination(&self, searcher: &PlaceholderSearcher, plan: &SubstitutionPlan) -> (r: Vec<String>)
        requires
            searcher.wf(),
            plan@.len() == PLACEHOLDER_COUNT,
        ensures
            r.deep_view() == destination(self@, plan@),
    {
        let mut r = self.destination_dir(searcher, plan);
        let name = searcher.substitute_with_plan(plan, self.file_name.as_str());
        let ghost before = r.deep_view();
        r.push(name);
        proof {
            assert(r.deep_view() =~= before.push(name@));
        }
        r
    }

    /// What is written for this file, given its contents in the template:
    /// with the placeholders replaced where the file asks for injection, as
    /// it is otherwise.
    pub fn contents_to_write(&self, searcher: &PlaceholderSearcher, plan: &SubstitutionPlan, fetched: String) -> (r: String)
        requires
            searcher.wf(),
            plan@.len() == PLACEHOLDER_COUNT,
        ensures
            r@ == written_contents(self@, plan@, fetched@),
    {
        if self.inject_project_info {
            searcher.substitute_with_plan(plan, fetched.as_str())
        } else {
            fetched
        }
    }
}

/// Whether `d` is a directory that some path of `dirs` needs: a non-empty
/// leading part of one of them.
pub open spec fn is_needed_dir(dirs: Seq<Seq<Seq<char>>>, d: Seq<Seq<char>>) -> bool {
    exists|i: int, n: int| 0 <= i < dirs.len() && 1 <= n <= dirs[i].len() && d == #[trigger] dirs[i].subrange(0, n)
}

/// Whether no path appears twice in `ds`.
#[verifier::opaque]
pub open spec fn all_distinct(ds: Seq<Seq<Seq<char>>>) -> bool {
    forall|i: int, j: int| 0 <= i < j < ds.len() ==> ds[i] != ds[j]
}

/// Whether the parent of each path of `ds` that has one comes earlier in `ds`.
#[verifier::opaque]
pub open spec fn parents_first(ds: Seq<Seq<Seq<char>>>) -> bool {
    forall|i: int| 0 <= i < ds.len() && ds[i].len() > 1 ==> exists|j: int| 0 <= j < i && ds[j] == ds[i].drop_last()
}

/// Whether `ds` holds `d`.
#[verifier::opaque]
pub open spec fn holds_path(ds: Seq<Seq<Seq<char>>>, d: Seq<Seq<char>>) -> bool {
    exists|i: int| 0 <= i < ds.len() && ds[i] == d
}

fn same_path(a: &Vec<String>, b: &Vec<String>) -> (r: bool)
    ensures
        r == (a.deep_view() == b.deep_view()),
{
    if a.len() != b.len() {
        proof {
            assert(a.deep_view().len() != b.deep_view().len());
        }
        return false;
    }
    let mut i: usize = 0;
    while i < a.len()
        invariant
            a@.len() == b@.len(),
            i <= a@.len(),
            forall|k: int| 0 <= k < i ==> a.deep_view()[k] == b.deep_view()[k],
        decreases a@.len() - i,
    {
        if a[i] != b[i] {
            proof {
                assert(a.deep_view()[i as int] != b.deep_view()[i as int]);
            }
            return false;
        }
        i = i + 1;
    }
    proof {
        assert(a.deep_view() =~= b.deep_view());
    }
    true
}

fn position_of(ds: &Vec<Vec<String>>, d: &Vec<String>) -> (r: Option<usize>)
    ensures
        r matches Some(i) ==> i < ds@.len() && ds.deep_view()[i as int] == d.deep_view(),
        r is None ==> !holds_path(ds.deep_view(), d.deep_view()),
{
    reveal(holds_path);
    let mut i: usize = 0;
    while i < ds.len()
        invariant
            i <= ds@.len(),
            forall|k: int| 0 <= k < i ==> ds.deep_view()[k] != d.deep_view(),
        decreases ds@.len() - i,
    {
        if same_path(&ds[i], d) {
            return Some(i);
        }
        i = i + 1;
    }
    None
}

fn leading_part(v: &Vec<String>, n: usize) -> (r: Vec<String>)
    requires
        n <= v@.len(),
    ensures
        r.deep_view() == v.deep_view().subrange(0, n as int),
{
    let mut r: Vec<String> = Vec::new();
    let mut i: usize = 0;
    while i < n
        invariant
            n <= v@.len(),
            i <= n,
            r.deep_view() =~= v.deep_view().subrange(0, i as int),
        decreases n - i,
    {
        let ghost before = r.deep_view();
        r.push(v[i].clone());
        proof {
            assert(r.deep_view() =~= before.push(v@[i as int]@));
        }
        i = i + 1;
    }
    r
}

/// Whether `d` is one of the leading parts of `cur` of length 1 up to `n - 1`.
pub open spec fn is_leading_part(cur: Seq<Seq<char>>, n: int, d: Seq<Seq<char>>) -> bool {
    exists|m: int| 1 <= m < n && d == #[trigger] cur.subrange(0, m)
}

proof fn lemma_push_path(before: Seq<Seq<Seq<char>>>, p: Seq<Seq<char>>)
    requires
        all_distinct(before),
        parents_first(before),
        !holds_path(before, p),
        p.len() > 1 ==> holds_path(before, p.drop_last()),
    ensures
        all_distinct(before.push(p)),
        parents_first(before.push(p)),
        forall|d: Seq<Seq<char>>| holds_path(before.push(p), d) <==> (holds_path(before, d) || d == p),
{
    reveal(holds_path);
    reveal(all_distinct);
    reveal(parents_first);
    let now = before.push(p);
    assert forall|d: Seq<Seq<char>>| holds_path(now, d) <==> (holds_path(before, d) || d == p) by {
        if holds_path(before, d) {
            let k = choose|k: int| 0 <= k < before.len() && before[k] == d;
            assert(now[k] == d);
        }
        if d == p {
            assert(now[now.len() - 1] == p);
        }
        if holds_path(now, d) {
            let k = choose|k: int| 0 <= k < now.len() && now[k] == d;
            if k < before.len() {
                assert(before[k] == d);
            }
        }
    }
    assert forall|i: int| 0 <= i < now.len() && now[i].len() > 1 implies exists|j: int| 0 <= j < i && now[j] == now[i].drop_last() by {
        if i < before.len() {
            let j = choose|j: int| 0 <= j < i && before[j] == before[i].drop_last();
            assert(now[j] == now[i].drop_last());
        } else {
            let j = choose|j: int| 0 <= j < before.len() && before[j] == p.drop_last();
            assert(now[j] == now[i].drop_last());
        }
    }
    assert forall|i: int, j: int| 0 <= i < j < now.len() implies now[i] != now[j] by {
        if j == before.len() {
            assert(before[i] == now[i]);
        }
    }
}

proof fn lemma_next_leading(all_i: Seq<Seq<Seq<char>>>, cur: Seq<Seq<char>>, n: int, p: Seq<Seq<char>>, d: Seq<Seq<char>>)
    requires
        1 <= n <= cur.len(),
        p == cur.subrange(0, n),
    ensures
        (is_needed_dir(all_i, d) || is_leading_part(cur, n + 1, d)) <==> (is_needed_dir(all_i, d) || is_leading_part(cur, n, d) || d == p),
{
    if is_leading_part(cur, n + 1, d) {
        let m = choose|m: int| 1 <= m < n + 1 && d == #[trigger] cur.subrange(0, m);
        if m == n {
            assert(d == p);
        } else {
            assert(is_leading_part(cur, n, d));
        }
    }
    if d == p {
        assert(is_leading_part(cur, n + 1, d));
    }
    if is_leading_part(cur, n, d) {
        let m = choose|m: int| 1 <= m < n && d == #[trigger] cur.subrange(0, m);
        assert(is_leading_part(cur, n + 1, d));
    }
}

proof fn lemma_next_dir(all: Seq<Seq<Seq<char>>>, i: int, d: Seq<Seq<char>>)
    requires
        0 <= i < all.len(),
    ensures
        is_needed_dir(all.subrange(0, i + 1), d) <==> (is_needed_dir(all.subrange(0, i), d)
            || is_leading_part(all[i], all[i].len() + 1 as int, d)),
{
    let next = all.subrange(0, i + 1);
    let prev = all.subrange(0, i);
    let cur = all[i];
    if is_needed_dir(next, d) {
        let (k, m) = choose|k: int, m: int| 0 <= k < next.len() && 1 <= m <= next[k].len() && d == #[trigger] next[k].subrange(0, m);
        if k < i {
            assert(prev[k] == next[k]);
            assert(is_needed_dir(prev, d));
        } else {
            assert(d == cur.subrange(0, m));
            assert(is_leading_part(cur, cur.len() + 1 as int, d));
        }
    }
    if is_needed_dir(prev, d) {
        let (k, m) = choose|k: int, m: int| 0 <= k < prev.len() && 1 <= m <= prev[k].len() && d == #[trigger] prev[k].subrange(0, m);
        assert(next[k] == prev[k]);
        assert(is_needed_dir(next, d));
    }
    if is_leading_part(cur, cur.len() + 1 as int, d) {
        let m = choose|m: int| 1 <= m < cur.len() + 1 && d == #[trigger] cur.subrange(0, m);
        assert(next[i] == cur);
        assert(d == next[i].subrange(0, m));
        assert(is_needed_dir(next, d));
    }
}

/// Whether `out` holds exactly the directories that the first paths `all_i`
/// need, and the leading parts of `cur` shorter than `n`.
#[verifier::opaque]
spec fn tracks(out: Seq<Seq<Seq<char>>>, all_i: Seq<Seq<Seq<char>>>, cur: Seq<Seq<char>>, n: int) -> bool {
    forall|d: Seq<Seq<char>>| holds_path(out, d) <==> (is_needed_dir(all_i, d) || is_leading_part(cur, n, d))
}

proof fn lemma_inner_step(
    before: Seq<Seq<Seq<char>>>,
    after: Seq<Seq<Seq<char>>>,
    all_i: Seq<Seq<Seq<char>>>,
    cur: Seq<Seq<char>>,
    n: int,
    p: Seq<Seq<char>>,
)
    requires
        tracks(before, all_i, cur, n),
        all_distinct(before),
        parents_first(before),
        1 <= n <= cur.len(),
        p == cur.subrange(0, n),
        (holds_path(before, p) && after == before) || (!holds_path(before, p) && after == before.push(p)),
    ensures
        tracks(after, all_i, cur, n + 1),
        all_distinct(after),
        parents_first(after),
{
    reveal(tracks);
    if !holds_path(before, p) {
        reveal(holds_path);
        if n > 1 {
            assert(p.drop_last() =~= cur.subrange(0, n - 1));
            assert(is_leading_part(cur, n, cur.subrange(0, n - 1)));
        }
        lemma_push_path(before, p);
    }
    assert forall|d: Seq<Seq<char>>| holds_path(after, d) <==> (is_needed_dir(all_i, d) || is_leading_part(cur, n + 1, d)) by {
        lemma_next_leading(all_i, cur, n, p, d);
    }
}

proof fn lemma_outer_step(out: Seq<Seq<Seq<char>>>, all: Seq<Seq<Seq<char>>>, i: int)
    requires
        0 <= i < all.len(),
        tracks(out, all.subrange(0, i), all[i], all[i].len() + 1 as int),
    ensures
        forall|d: Seq<Seq<char>>| holds_path(out, d) <==> is_needed_dir(all.subrange(0, i + 1), d),
{
    reveal(tracks);
    assert forall|d: Seq<Seq<char>>| holds_path(out, d) <==> is_needed_dir(all.subrange(0, i + 1), d) by {
        lemma_next_dir(all, i, d);
    }
}

proof fn lemma_outer_start(out: Seq<Seq<Seq<char>>>, all_i: Seq<Seq<Seq<char>>>, cur: Seq<Seq<char>>)
    requires
        forall|d: Seq<Seq<char>>| holds_path(out, d) <==> is_needed_dir(all_i, d),
    ensures
        tracks(out, all_i, cur, 1),
{
    reveal(tracks);
}

/// The directories to create, below the destination root, so that each of
/// `dirs` exists: every non-empty leading part of each, each once, every
/// parent before its children. Creating them in this order, one at a time,
/// creates each needed directory exactly once.
pub fn directories_to_create(dirs: &Vec<Vec<String>>) -> (r: Vec<Vec<String>>)
    ensures
        forall|d: Seq<Seq<char>>| holds_path(r.deep_view(), d) <==> is_needed_dir(dirs.deep_view(), d),
        all_distinct(r.deep_view()),
        parents_first(r.deep_view()),
{
    let ghost all = dirs.deep_view();
    let mut out: Vec<Vec<String>> = Vec::new();
    let mut i: usize = 0;
    proof {
        reveal(holds_path);
        reveal(all_distinct);
        reveal(parents_first);
        assert(out.deep_view() =~= seq![]);
    }
    while i < dirs.len()
        invariant
            all == dirs.deep_view(),
            i <= all.len(),
            forall|d: Seq<Seq<char>>| holds_path(out.deep_view(), d) <==> is_needed_dir(all.subrange(0, i as int), d),
            all_distinct(out.deep_view()),
            parents_first(out.deep_view()),
        decreases all.len() - i,
    {
        let dir = &dirs[i];
        let ghost cur = all[i as int];
        let mut m: usize = 0;
        proof {
            lemma_outer_start(out.deep_view(), all.subrange(0, i as int), cur);
        }
        while m < dir.len()
            invariant
                all == dirs.deep_view(),
                i < all.len(),
                cur == all[i as int],
                cur == dir.deep_view(),
                m <= cur.len(),
                tracks(out.deep_view(), all.subrange(0, i as int), cur, m + 1),
                all_distinct(out.deep_view()),
                parents_first(out.deep_view()),
            decreases cur.len() - m,
        {
            let n = m + 1;
            let part = leading_part(dir, n);
            let ghost before = out.deep_view();
            match position_of(&out, &part) {
                Some(k) => {
                    proof {
                        reveal(holds_path);
                        assert(before[k as int] == part.deep_view());
                    }
                },
                None => {
                    out.push(part);
                    proof {
                        assert(out.deep_view() =~= before.push(part.deep_view()));
                    }
                },
            }
            proof {
                lemma_inner_step(before, out.deep_view(), all.subrange(0, i as int), cur, n as int, part.deep_view());
            }
            m = n;
        }
        proof {
            lemma_outer_step(out.deep_view(), all, i as int);
        }
        i = i + 1;
    }
    proof {
        assert(all.subrange(0, i as int) =~= all);
    }
    out
}

/// What kind of step of a file's unit of work failed.
#[derive(Clone, Copy, Debug, PartialEq, Eq, Structural)]
pub enum FailureKind {
    /// Fetching the file's contents from the template failed.
    ContentFetch,
    /// Creating a directory or writing the file failed.
    Filesystem,
}

/// The failure of one file's unit of work.
pub struct UnitFailure {
    /// The path in the template of the file whose unit failed.
    pub path: String,
    pub kind: FailureKind,
    /// The cause, as reported by whatever failed.
    pub cause: String,
}

/// The outcome of all units together: the first failure in unit order, or
/// success when every unit succeeded.
pub open spec fn combined(results: Seq<Result<(), UnitFailure>>) -> Result<(), UnitFailure>
    decreases results.len(),
{
    if results.len() == 0 {
        Ok(())
    } else if results[0] is Err {
        results[0]
    } else {
        combined(results.drop_first())
    }
}

proof fn lemma_combined_ok(results: Seq<Result<(), UnitFailure>>)
    ensures
        combined(results) is Ok <==> forall|i: int| 0 <= i < results.len() ==> #[trigger] results[i] is Ok,
    decreases results.len(),
{
    if results.len() > 0 {
        lemma_combined_ok(results.drop_first());
        if results[0] is Ok {
            assert forall|i: int| 0 <= i < results.len() && (forall|k: int| 0 <= k < results.drop_first().len() ==> #[trigger] results.drop_first()[k] is Ok)
                implies #[trigger] results[i] is Ok by {
                if i > 0 {
                    assert(results[i] == results.drop_first()[i - 1]);
                }
            }
        }
    }
}

/// The overall result of a materialization from the results of its file
/// units, in unit order: success if and only if every unit succeeded, and
/// otherwise the first failure.
pub fn combine_results(unit_results: Vec<Result<(), UnitFailure>>) -> (r: Result<(), UnitFailure>)
    ensures
        r == combined(unit_results@),
        r is Ok <==> forall|i: int| 0 <= i < unit_results@.len() ==> #[trigger] unit_results@[i] is Ok,
{
    proof {
        lemma_combined_ok(unit_results@);
    }
    let mut results = unit_results;
    let ghost all = results@;
    let mut i: usize = 0;
    proof {
        assert(all.skip(0) =~= all);
    }
    while i < results.len()
        invariant
            results@ == all,
            all == unit_results@,
            i <= all.len(),
            combined(all) == combined(all.skip(i as int)),
        decreases all.len() - i,
    {
        proof {
            assert(all.skip(i as int).drop_first() =~= all.skip(i + 1));
            assert(all.skip(i as int)[0] == all[i as int]);
        }
        if results[i].is_err() {
            let failure = results.remove(i);
            return failure;
        }
        i = i + 1;
    }
    proof {
        assert(all.skip(i as int) =~= seq![]);
    }
    Ok(())
}

/// When exactly one unit fails, the overall result is that unit's failure,
/// so it names that unit's file.
pub proof fn lemma_single_failure_reported(results: Seq<Result<(), UnitFailure>>, failed: int)
    requires
        0 <= failed < results.len(),
        results[failed] is Err,
        forall|i: int| 0 <= i < results.len() && i != failed ==> #[trigger] results[i] is Ok,
    ensures
        combined(results) == results[failed],
        combined(results)->Err_0.path@ == results[failed]->Err_0.path@,
    decreases results.len(),
{
    if failed > 0 {
        let tail = results.drop_first();
        assert forall|i: int| 0 <= i < tail.len() && i != failed - 1 implies #[trigger] tail[i] is Ok by {
            assert(tail[i] == results[i + 1]);
        }
        lemma_single_failure_reported(tail, failed - 1);
    }
}

/// In a folder with two files, the first asking for injection and the
/// second not: both files are planned under the folder, both destination
/// names have the placeholders replaced, the first file's contents are
/// substituted and the second's are written exactly as fetched.
pub proof fn lemma_injection_decides_contents_only(
    es: Seq<(String, TemplateStructureDirEntryData)>,
    plan: Seq<Seq<char>>,
    first_fetched: Seq<char>,
    second_fetched: Seq<char>,
)
    requires
        es.len() == 1,
        es[0].1 is Folder,
        es[0].1->Folder_children@.len() == 2,
        es[0].1->Folder_children@[0].1 == (TemplateStructureDirEntryData::File { inject_project_info: true }),
        es[0].1->Folder_children@[1].1 == (TemplateStructureDirEntryData::File { inject_project_info: false }),
    ensures
        ({
            let folder = es[0].0@;
            let children = es[0].1->Folder_children@;
            let files = files_in(es, seq![]);
            &&& files.len() == 2
            &&& files[0] == (seq![folder], children[0].0@, true)
            &&& files[1] == (seq![folder], children[1].0@, false)
            &&& destination(files[0], plan) == seq![shown(folder, plan), shown(children[0].0@, plan)]
            &&& destination(files[1], plan) == seq![shown(folder, plan), shown(children[1].0@, plan)]
            &&& written_contents(files[0], plan, first_fetched) == shown(first_fetched, plan)
            &&& written_contents(files[1], plan, second_fetched) == second_fetched
        }),
{
    let folder = es[0].0@;
    let children = es[0].1->Folder_children@;
    let anc = seq![folder];
    assert(es.drop_last() =~= seq![]);
    assert(seq![].push(folder) =~= anc);
    let c1 = children.drop_last();
    assert(c1.last() == children[0]);
    assert(children.last() == children[1]);
    let c0 = c1.drop_last();
    assert(c0.len() == 0);
    assert(files_in(c0, anc).len() == 0);
    assert(files_in(c1, anc) =~= seq![(anc, children[0].0@, true)]);
    assert(files_in(children, anc) =~= seq![(anc, children[0].0@, true), (anc, children[1].0@, false)]);
    let e0 = es.drop_last();
    assert(files_in(e0, seq![]).len() == 0);
    let files = files_in(es, seq![]);
    assert(files =~= seq![(anc, children[0].0@, true), (anc, children[1].0@, false)]);
    assert(destination(files[0], plan) =~= seq![shown(folder, plan), shown(children[0].0@, plan)]);
    assert(destination(files[1], plan) =~= seq![shown(folder, plan), shown(children[1].0@, plan)]);
}

} // verus!
