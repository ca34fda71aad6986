//! Searching the template list: an entry matches a query when each
//! space-separated part of the query occurs in the lowercase form of its
//! name, its description, its author or one of its tags.

use vstd::prelude::*;
use vstd::string::*;
use crate::casing::{lower_of, lowercase};
use crate::catalog::{parse_template_info_tags, tags_view, Tag, TagModel, TemplateInfo, all_tags};

verus! {

/// Whether `needle` occurs in `hay` as a run of consecutive characters.
pub open spec fn occurs(hay: Seq<char>, needle: Seq<char>) -> bool {
    exists|i: int| 0 <= i && i + needle.len() <= hay.len() && #[trigger] hay.subrange(i, i + needle.len()) == needle
}

/// Relies on `str::contains` with a string pattern: whether the pattern
/// occurs in the string. On UTF-8 text a byte match of a whole UTF-8 pattern
/// is a match of its characters.
#[verifier::external_body]
fn contains_text(hay: &str, needle: &str) -> (r: bool)
    ensures
        r == occurs(hay@, needle@),
{
    hay.contains(needle)
}

/// The parts of `s` between single spaces, starting at a part that begins
/// at `start`, scanning from `i`.
pub open spec fn parts_from(s: Seq<char>, start: int, i: int) -> Seq<Seq<char>>
    decreases s.len() - i,
{
    if i >= s.len() {
        seq![s.subrange(start, s.len() as int)]
    } else if s[i] == ' ' {
        seq![s.subrange(start, i)] + parts_from(s, i + 1, i + 1)
    } else {
        parts_from(s, start, i + 1)
    }
}

/// The parts of `s` between single spaces, empty parts included: what
/// `str::split(" ")` yields.
pub open spec fn query_parts(s: Seq<char>) -> Seq<Seq<char>> {
    parts_from(s, 0, 0)
}

/// The parts of `s` between single spaces, empty parts included.
pub fn split_on_spaces(s: &str) -> (r: Vec<String>)
    ensures
        r.deep_view() == query_parts(s@),
{
    let n = s.unicode_len();
    let mut out: Vec<String> = Vec::new();
    let mut start: usize = 0;
    let mut i: usize = 0;
    proof {
        assert(out.deep_view() =~= seq![]);
    }
    while i < n
        invariant
            n == s@.len(),
            start <= i <= n,
            query_parts(s@) == out.deep_view() + parts_from(s@, start as int, i as int),
        decreases n - i,
    {
        if s.get_char(i) == ' ' {
            let ghost before = out.deep_view();
            out.push(String::from_str(s.substring_char(start, i)));
            proof {
                assert(out.deep_view() =~= before.push(s@.subrange(start as int, i as int)));
            }
            start = i + 1;
        }
        i = i + 1;
    }
    let ghost before = out.deep_view();
    out.push(String::from_str(s.substring_char(start, n)));
    proof {
        assert(out.deep_view() =~= before.push(s@.subrange(start as int, n as int)));
    }
    out
}

/// One entry of the template list.
pub struct ScaffoldListEntry {
    pub template_name: String,
    pub template_id: String,
    pub author: String,
    pub desc: String,
    pub tags: Vec<Tag>,
}

/// The texts that a query is searched in: the lowercase forms of the name,
/// the description, the author and each tag's text.
pub open spec fn searchable(name: Seq<char>, desc: Seq<char>, author: Seq<char>, tags: Seq<TagModel>) -> Seq<Seq<char>> {
    seq![lower_of(name), lower_of(desc), lower_of(author)] + Seq::new(tags.len(), |t: int| lower_of(tags[t].0))
}

/// Whether `part` occurs in one of `texts`.
pub open spec fn part_found(texts: Seq<Seq<char>>, part: Seq<char>) -> bool {
    exists|i: int| 0 <= i < texts.len() && occurs(#[trigger] texts[i], part)
}

/// Whether every space-separated part of `query` occurs in one of `texts`.
pub open spec fn query_found(texts: Seq<Seq<char>>, query: Seq<char>) -> bool {
    forall|k: int| 0 <= k < query_parts(query).len() ==> part_found(texts, #[trigger] query_parts(query)[k])
}

/// Whether `part` occurs in one of `texts`.
pub fn part_occurs_in_any(texts: &Vec<String>, part: &str) -> (r: bool)
    ensures
        r == part_found(texts.deep_view(), part@),
{
    let ghost tv = texts.deep_view();
    let mut i: usize = 0;
    while i < texts.len()
        invariant
            tv == texts.deep_view(),
            i <= tv.len(),
            forall|u: int| 0 <= u < i ==> !occurs(#[trigger] tv[u], part@),
        decreases tv.len() - i,
    {
        if contains_text(texts[i].as_str(), part) {
            proof {
                assert(occurs(tv[i as int], part@));
            }
            return true;
        }
        i = i + 1;
    }
    false
}

/// Whether each space-separated part of `queries` (empty parts included,
/// which occur everywhere) occurs in one of `texts`.
pub fn query_occurs_in(texts: &Vec<String>, queries: &str) -> (r: bool)
    ensures
        r == query_found(texts.deep_view(), queries@),
{
    let parts = split_on_spaces(queries);
    let ghost ps = query_parts(queries@);
    let mut k: usize = 0;
    while k < parts.len()
        invariant
            parts.deep_view() == ps,
            ps == query_parts(queries@),
            k <= ps.len(),
            forall|j: int| 0 <= j < k ==> part_found(texts.deep_view(), #[trigger] ps[j]),
        decreases ps.len() - k,
    {
        if !part_occurs_in_any(texts, parts[k].as_str()) {
            proof {
                assert(parts@[k as int]@ == ps[k as int]);
            }
            return false;
        }
        k = k + 1;
    }
    true
}

impl ScaffoldListEntry {
    pub fn new(template_name: String, template_id: String, author: String, desc: String, tags: Vec<Tag>) -> (r: ScaffoldListEntry)
        ensures
            r.template_name@ == template_name@,
            r.template_id@ == template_id@,
            r.author@ == author@,
            r.desc@ == desc@,
            tags_view(r.tags@) == tags_view(tags@),
    {
        ScaffoldListEntry { template_name, template_id, author, desc, tags }
    }

    /// The list entry of a catalog template, with all its tags.
    pub fn from_info(info: &TemplateInfo) -> (r: ScaffoldListEntry)
        ensures
            r.template_name@ == info.name@,
            r.template_id@ == info.path@,
            r.author@ == info.author@,
            r.desc@ == info.description@,
            tags_view(r.tags@) == all_tags(info.tags),
    {
        ScaffoldListEntry::new(
            info.name.clone(),
            info.path.clone(),
            info.author.clone(),
            info.description.clone(),
            parse_template_info_tags(&info.tags),
        )
    }

    /// The texts a query is searched in: name, description, author and
    /// each tag's text, all in lowercase.
    pub fn searchable_texts(&self) -> (r: Vec<String>)
        ensures
            r.deep_view() == searchable(self.template_name@, self.desc@, self.author@, tags_view(self.tags@)),
    {
        let ghost target = searchable(self.template_name@, self.desc@, self.author@, tags_view(self.tags@));
        let mut texts: Vec<String> = Vec::new();
        texts.push(lowercase(self.template_name.as_str()));
        texts.push(lowercase(self.desc.as_str()));
        texts.push(lowercase(self.author.as_str()));
        proof {
            assert(texts.deep_view() =~= target.subrange(0, 3));
        }
        let mut t: usize = 0;
        while t < self.tags.len()
            invariant
                target == searchable(self.template_name@, self.desc@, self.author@, tags_view(self.tags@)),
                t <= self.tags@.len(),
                texts.deep_view() =~= target.subrange(0, 3 + t),
            decreases self.tags@.len() - t,
        {
            let lowered = lowercase(self.tags[t].text.as_str());
            let ghost before = texts.deep_view();
            texts.push(lowered);
            proof {
                assert(texts.deep_view() =~= before.push(lowered@));
            }
            t = t + 1;
        }
        proof {
            assert(target.subrange(0, 3 + t) =~= target);
        }
        texts
    }

    /// Whether each space-separated part of `queries` (empty parts
    /// included, which match anything) occurs in the lowercase form of the
    /// template's name, its description, its author or one of its tags.
    pub fn matches_query(&self, queries: &str) -> (r: bool)
        ensures
            r == query_found(searchable(self.template_name@, self.desc@, self.author@, tags_view(self.tags@)), queries@),
    {
        let texts = self.searchable_texts();
        query_occurs_in(&texts, queries)
    }
}

/// A list entry as plain values: name, id, author, description, tags.
pub type EntryModel = (Seq<char>, Seq<char>, Seq<char>, Seq<char>, Seq<TagModel>);

/// The list entry that a catalog template gives.
pub open spec fn entry_of(t: TemplateInfo) -> EntryModel {
    (t.name@, t.path@, t.author@, t.description@, all_tags(t.tags))
}

/// A list entry as plain values.
pub open spec fn entry_view(e: ScaffoldListEntry) -> EntryModel {
    (e.template_name@, e.template_id@, e.author@, e.desc@, tags_view(e.tags@))
}

/// The entries of the templates of `ts` that match `query`, in order.
pub open spec fn matching_entries(ts: Seq<TemplateInfo>, query: Seq<char>) -> Seq<EntryModel>
    decreases ts.len(),
{
    if ts.len() == 0 {
        seq![]
    } else {
        let e = entry_of(ts.last());
        let init = matching_entries(ts.drop_last(), query);
        if query_found(searchable(e.0, e.3, e.2, e.4), query) {
            init.push(e)
        } else {
            init
        }
    }
}

/// The list of templates to show for `query`: one entry for each template
/// that matches it, in the order of `templates`.
pub fn entries_matching(templates: &Vec<TemplateInfo>, query: &str) -> (r: Vec<ScaffoldListEntry>)
    ensures
        Seq::new(r@.len(), |i: int| entry_view(r@[i])) == matching_entries(templates@, query@),
{
    let mut out: Vec<ScaffoldListEntry> = Vec::new();
    let mut i: usize = 0;
    while i < templates.len()
        invariant
            i <= templates@.len(),
            Seq::new(out@.len(), |j: int| entry_view(out@[j])) == matching_entries(templates@.subrange(0, i as int), query@),
        decreases templates@.len() - i,
    {
        let entry = ScaffoldListEntry::from_info(&templates[i]);
        let ghost before = out@;
        let ghost prefix = templates@.subrange(0, i + 1);
        proof {
            assert(prefix.drop_last() =~= templates@.subrange(0, i as int));
            assert(prefix.last() == templates@[i as int]);
        }
        if entry.matches_query(query) {
            out.push(entry);
            proof {
                assert(Seq::new(out@.len(), |j: int| entry_view(out@[j])) =~= Seq::new(before.len(), |j: int| entry_view(before[j])).push(entry_view(entry)));
            }
        } else {
            proof {
                assert(out@ == before);
            }
        }
        i = i + 1;
    }
    proof {
        assert(templates@.subrange(0, i as int) =~= templates@);
    }
    out
}

} // verus!
