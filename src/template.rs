//! A template's directory structure: named folders and files, each with a
//! flag that says whether the project's details are injected into it.

use vstd::prelude::*;
use vstd::string::*;
use crate::substitution::{replace_all, placeholder_tokens, PlaceholderSearcher, SubstitutionPlan, PLACEHOLDER_COUNT};

verus! {

broadcast use vstd::std_specs::vec::group_vec_axioms, vstd::seq::group_seq_axioms;

/// One entry of a template's directory structure.
pub enum TemplateStructureDirEntryData {
    Folder { inject_project_info: bool, children: Vec<(String, TemplateStructureDirEntryData)> },
    File { inject_project_info: bool },
}

/// The entries at the top of a template, each under its name.
pub type TemplateStructure = Vec<(String, TemplateStructureDirEntryData)>;

/// Whether names are unique within each mapping of the structure, at
/// every level.
pub open spec fn structure_wf(es: Seq<(String, TemplateStructureDirEntryData)>) -> bool
    decreases es,
{
    if es.len() == 0 {
        true
    } else {
        let last = es.last();
        &&& structure_wf(es.drop_last())
        &&& forall|k: int| 0 <= k < es.len() - 1 ==> (#[trigger] es[k]).0@ != last.0@
        &&& match last.1 {
            TemplateStructureDirEntryData::Folder { children, .. } => structure_wf(children@),
            TemplateStructureDirEntryData::File { .. } => true,
        }
    }
}

proof fn lemma_structure_wf_prefix(es: Seq<(String, TemplateStructureDirEntryData)>, n: int)
    requires
        0 <= n <= es.len(),
        structure_wf(es),
    ensures
        structure_wf(es.subrange(0, n)),
    decreases es.len() - n,
{
    if n < es.len() {
        lemma_structure_wf_prefix(es, n + 1);
        assert(es.subrange(0, n + 1).drop_last() =~= es.subrange(0, n));
    } else {
        assert(es.subrange(0, n) =~= es);
    }
}

/// Whether names are unique within each mapping of the structure.
pub fn structure_is_wf(es: &Vec<(String, TemplateStructureDirEntryData)>) -> (r: bool)
    ensures
        r == structure_wf(es@),
    decreases es@,
{
    let mut i: usize = 0;
    proof {
        assert(es@.subrange(0, 0) =~= Seq::<(String, TemplateStructureDirEntryData)>::empty());
    }
    while i < es.len()
        invariant
            i <= es@.len(),
            structure_wf(es@.subrange(0, i as int)),
        decreases es@.len() - i,
    {
        let ghost prefix = es@.subrange(0, i + 1);
        proof {
            assert(prefix.drop_last() =~= es@.subrange(0, i as int));
            assert(prefix.last() == es@[i as int]);
        }
        let mut j: usize = 0;
        while j < i
            invariant
                i < es@.len(),
                j <= i,
                prefix == es@.subrange(0, i + 1),
                forall|k: int| 0 <= k < j ==> (#[trigger] es@[k]).0@ != es@[i as int].0@,
            decreases i - j,
        {
            if es[j].0 == es[i].0 {
                proof {
                    assert(prefix[j as int] == es@[j as int]);
                    assert(prefix.last() == es@[i as int]);
                    if structure_wf(es@) {
                        lemma_structure_wf_prefix(es@, i + 1);
                    }
                }
                return false;
            }
            j = j + 1;
        }
        proof {
            assert forall|k: int| 0 <= k < prefix.len() - 1 implies (#[trigger] prefix[k]).0@ != prefix.last().0@ by {
                assert(prefix[k] == es@[k]);
            }
        }
        match &es[i].1 {
            TemplateStructureDirEntryData::Folder { children, .. } => {
                if !structure_is_wf(children) {
                    proof {
                        if structure_wf(es@) {
                            lemma_structure_wf_prefix(es@, i + 1);
                        }
                    }
                    return false;
                }
            },
            TemplateStructureDirEntryData::File { .. } => {},
        }
        i = i + 1;
    }
    proof {
        assert(es@.subrange(0, i as int) =~= es@);
    }
    true
}

/// Whether an entry is a folder.
pub open spec fn is_folder(e: TemplateStructureDirEntryData) -> bool {
    e is Folder
}

/// Whether `a` comes before `b` in code point order (the order of their UTF-8 bytes).
pub open spec fn name_lt(a: Seq<char>, b: Seq<char>) -> bool
    decreases a.len(),
{
    if b.len() == 0 {
        false
    } else if a.len() == 0 {
        true
    } else if a[0] != b[0] {
        (a[0] as u32) < (b[0] as u32)
    } else {
        name_lt(a.drop_first(), b.drop_first())
    }
}

/// Whether entry `a` is listed before entry `b`: folders before files, and
/// within each kind by name.
pub open spec fn listed_before(a: (String, TemplateStructureDirEntryData), b: (String, TemplateStructureDirEntryData)) -> bool {
    (is_folder(a.1) && !is_folder(b.1)) || (is_folder(a.1) == is_folder(b.1) && name_lt(a.0@, b.0@))
}

/// Index `k` inserted into the listing `order` of `es` before the first index
/// that it is listed before.
pub open spec fn insert_listed(es: Seq<(String, TemplateStructureDirEntryData)>, k: int, order: Seq<int>) -> Seq<int>
    decreases order.len(),
{
    if order.len() == 0 {
        seq![k]
    } else if listed_before(es[k], es[order[0]]) {
        seq![k] + order
    } else {
        seq![order[0]] + insert_listed(es, k, order.drop_first())
    }
}

/// The indices of the first `n` entries of `es` in listing order; entries
/// that neither comes before the other keep their order.
pub open spec fn listing_prefix(es: Seq<(String, TemplateStructureDirEntryData)>, n: int) -> Seq<int>
    decreases n,
{
    if n <= 0 {
        seq![]
    } else {
        insert_listed(es, n - 1, listing_prefix(es, n - 1))
    }
}

/// The indices of the entries of `es` in listing order.
pub open spec fn listing(es: Seq<(String, TemplateStructureDirEntryData)>) -> Seq<int> {
    listing_prefix(es, es.len() as int)
}

/// The mark before a folder's name in a formatted structure.
pub const FOLDER_MARK: &'static str = "\u{1F5BF} ";

/// The mark before a file's name in a formatted structure.
pub const FILE_MARK: &'static str = "\u{1F5CE} ";

/// What each level of nesting adds to the indentation.
pub const INDENT_STEP: &'static str = "    ";

/// One line for each entry named in `order`, in that order, each folder
/// followed by its own entries in listing order, one level deeper. A
/// folder's name is shown with `plan` applied to it; a file's name as it is.
pub open spec fn format_listed(
    es: Seq<(String, TemplateStructureDirEntryData)>,
    order: Seq<int>,
    indent: Seq<char>,
    plan: Seq<Seq<char>>,
) -> Seq<char>
    decreases es, order.len(),
{
    if order.len() == 0 {
        seq![]
    } else {
        let k = order[0];
        let rest = format_listed(es, order.drop_first(), indent, plan);
        if 0 <= k < es.len() {
            match es[k].1 {
                TemplateStructureDirEntryData::Folder { children, .. } => indent + FOLDER_MARK@
                    + replace_all(es[k].0@, placeholder_tokens(), plan) + "\n"@
                    + format_listed(children@, listing(children@), indent + INDENT_STEP@, plan) + rest,
                TemplateStructureDirEntryData::File { .. } => indent + FILE_MARK@ + es[k].0@ + "\n"@ + rest,
            }
        } else {
            rest
        }
    }
}

/// The whole structure formatted, from the top level without indentation.
pub open spec fn formatted_structure(es: Seq<(String, TemplateStructureDirEntryData)>, plan: Seq<Seq<char>>) -> Seq<char> {
    format_listed(es, listing(es), seq![], plan)
}

/// Whether `a` comes before `b` in code point order.
pub fn name_is_less(a: &str, b: &str) -> (r: bool)
    ensures
        r == name_lt(a@, b@),
{
    let na = a.unicode_len();
    let nb = b.unicode_len();
    let mut i: usize = 0;
    proof {
        assert(a@.skip(0) =~= a@);
        assert(b@.skip(0) =~= b@);
    }
    while i < na && i < nb && a.get_char(i) == b.get_char(i)
        invariant
            na == a@.len(),
            nb == b@.len(),
            i <= na,
            i <= nb,
            name_lt(a@, b@) == name_lt(a@.skip(i as int), b@.skip(i as int)),
        decreases na - i,
    {
        proof {
            assert(a@.skip(i as int).drop_first() =~= a@.skip(i + 1));
            assert(b@.skip(i as int).drop_first() =~= b@.skip(i + 1));
        }
        i = i + 1;
    }
    if i == nb {
        false
    } else if i == na {
        true
    } else {
        (a.get_char(i) as u32) < (b.get_char(i) as u32)
    }
}

fn entry_is_folder(e: &TemplateStructureDirEntryData) -> (r: bool)
    ensures
        r == is_folder(*e),
{
    match e {
        TemplateStructureDirEntryData::Folder { .. } => true,
        TemplateStructureDirEntryData::File { .. } => false,
    }
}

/// Whether entry `a` is listed before entry `b`.
pub fn is_listed_before(a: &(String, TemplateStructureDirEntryData), b: &(String, TemplateStructureDirEntryData)) -> (r: bool)
    ensures
        r == listed_before(*a, *b),
{
    let fa = entry_is_folder(&a.1);
    let fb = entry_is_folder(&b.1);
    if fa && !fb {
        true
    } else if fa == fb {
        name_is_less(a.0.as_str(), b.0.as_str())
    } else {
        false
    }
}

proof fn lemma_insert_listed_at(es: Seq<(String, TemplateStructureDirEntryData)>, k: int, order: Seq<int>, p: int)
    requires
        0 <= p <= order.len(),
        forall|q: int| 0 <= q < p ==> !listed_before(es[k], #[trigger] es[order[q]]),
        p < order.len() ==> listed_before(es[k], es[order[p]]),
    ensures
        insert_listed(es, k, order) == order.insert(p, k),
    decreases order.len(),
{
    if order.len() == 0 {
        assert(order.insert(p, k) =~= seq![k]);
    } else if p == 0 {
        assert(order.insert(p, k) =~= seq![k] + order);
    } else {
        let tail = order.drop_first();
        assert forall|q: int| 0 <= q < p - 1 implies !listed_before(es[k], #[trigger] es[tail[q]]) by {
            assert(tail[q] == order[q + 1]);
        }
        lemma_insert_listed_at(es, k, tail, p - 1);
        assert(order.insert(p, k) =~= seq![order[0]] + tail.insert(p - 1, k));
    }
}

proof fn lemma_insert_listed_bounds(es: Seq<(String, TemplateStructureDirEntryData)>, k: int, order: Seq<int>)
    ensures
        insert_listed(es, k, order).len() == order.len() + 1,
    decreases order.len(),
{
    if order.len() > 0 {
        lemma_insert_listed_bounds(es, k, order.drop_first());
    }
}

/// The indices of the entries of `es` in listing order.
pub fn listing_order(es: &Vec<(String, TemplateStructureDirEntryData)>) -> (r: Vec<usize>)
    ensures
        r@.map_values(|x: usize| x as int) == listing(es@),
        forall|q: int| 0 <= q < r@.len() ==> #[trigger] r@[q] < es@.len(),
{
    let mut order: Vec<usize> = Vec::new();
    let mut n: usize = 0;
    while n < es.len()
        invariant
            n <= es@.len(),
            order@.map_values(|x: usize| x as int) == listing_prefix(es@, n as int),
            forall|q: int| 0 <= q < order@.len() ==> #[trigger] order@[q] < n,
        decreases es@.len() - n,
    {
        let mut p: usize = 0;
        while p < order.len() && !is_listed_before(&es[n], &es[order[p]])
            invariant
                n < es@.len(),
                p <= order@.len(),
                forall|q: int| 0 <= q < order@.len() ==> #[trigger] order@[q] < n,
                forall|q: int| 0 <= q < p ==> !listed_before(es@[n as int], #[trigger] es@[order@[q] as int]),
            decreases order@.len() - p,
        {
            p = p + 1;
        }
        let ghost before = order@;
        order.insert(p, n);
        proof {
            let ord = before.map_values(|x: usize| x as int);
            assert forall|q: int| 0 <= q < p implies !listed_before(es@[n as int], #[trigger] es@[ord[q]]) by {
                assert(ord[q] == before[q] as int);
            }
            lemma_insert_listed_at(es@, n as int, ord, p as int);
            assert(order@.map_values(|x: usize| x as int) =~= ord.insert(p as int, n as int));
        }
        n = n + 1;
    }
    order
}

fn append_formatted(
    es: &Vec<(String, TemplateStructureDirEntryData)>,
    indent: &str,
    searcher: &PlaceholderSearcher,
    plan: &SubstitutionPlan,
    out: &mut String,
)
    requires
        searcher.wf(),
        plan@.len() == PLACEHOLDER_COUNT,
    ensures
        final(out)@ == old(out)@ + format_listed(es@, listing(es@), indent@, plan@),
    decreases es@,
{
    let order = listing_order(es);
    let ghost full = listing(es@);
    let ghost start = out@;
    let mut j: usize = 0;
    proof {
        assert(full.skip(0) =~= full);
    }
    while j < order.len()
        invariant
            searcher.wf(),
            plan@.len() == PLACEHOLDER_COUNT,
            order@.map_values(|x: usize| x as int) == full,
            forall|q: int| 0 <= q < order@.len() ==> #[trigger] order@[q] < es@.len(),
            j <= order@.len(),
            start + format_listed(es@, full, indent@, plan@) == out@ + format_listed(es@, full.skip(j as int), indent@, plan@),
        decreases order@.len() - j,
    {
        let k = order[j];
        let ghost tail = full.skip(j as int);
        proof {
            assert(tail[0] == k as int);
            assert(tail.drop_first() =~= full.skip(j + 1));
        }
        let entry = &es[k];
        match &entry.1 {
            TemplateStructureDirEntryData::Folder { children, .. } => {
                out.append(indent);
                out.append(FOLDER_MARK);
                let shown = searcher.substitute_with_plan(plan, entry.0.as_str());
                out.append(shown.as_str());
                out.append("\n");
                let mut deeper = String::from_str(indent);
                deeper.append(INDENT_STEP);
                append_formatted(children, deeper.as_str(), searcher, plan, out);
            },
            TemplateStructureDirEntryData::File { .. } => {
                out.append(indent);
                out.append(FILE_MARK);
                out.append(entry.0.as_str());
                out.append("\n");
            },
        }
        j = j + 1;
    }
    proof {
        assert(full.skip(j as int) =~= seq![]);
    }
}

/// The structure as text, one line per entry: folders before files and each
/// kind by name, each folder followed by its own entries indented by four
/// more spaces. Folder names are shown with the placeholders replaced for
/// `project_name`.
pub fn format_template_structure(
    searcher: &PlaceholderSearcher,
    template_structure: &TemplateStructure,
    project_name: &str,
) -> (r: String)
    requires
        searcher.wf(),
    ensures
        r@ == formatted_structure(template_structure@, crate::substitution::plan_of(project_name@)),
{
    let plan = SubstitutionPlan::for_project(project_name);
    let mut out = String::new();
    let top = String::new();
    append_formatted(template_structure, top.as_str(), searcher, &plan, &mut out);
    out
}

} // verus!
