//! The catalog of available templates, their tags, and the search over them
//! that the template list offers.

use vstd::prelude::*;
use vstd::string::*;

verus! {

/// One template's tags by kind, each a name with an optional version.
pub struct TemplateInfoTags {
    pub languages: Vec<(String, Option<String>)>,
    pub frameworks: Vec<(String, Option<String>)>,
    pub libraries: Vec<(String, Option<String>)>,
    pub misc: Vec<(String, Option<String>)>,
}

/// Whether no name appears twice among the tags of one kind.
pub open spec fn names_unique(es: Seq<(String, Option<String>)>) -> bool {
    forall|i: int, j: int| 0 <= i < j < es.len() ==> es[i].0@ != es[j].0@
}

/// Whether each kind of tags names each tag once.
pub open spec fn tags_wf(t: TemplateInfoTags) -> bool {
    &&& names_unique(t.languages@)
    &&& names_unique(t.frameworks@)
    &&& names_unique(t.libraries@)
    &&& names_unique(t.misc@)
}

fn names_are_unique(es: &Vec<(String, Option<String>)>) -> (r: bool)
    ensures
        r == names_unique(es@),
{
    let mut j: usize = 0;
    while j < es.len()
        invariant
            j <= es@.len(),
            forall|a: int, b: int| 0 <= a < b < j ==> es@[a].0@ != es@[b].0@,
        decreases es@.len() - j,
    {
        let mut i: usize = 0;
        while i < j
            invariant
                j < es@.len(),
                i <= j,
                forall|a: int| 0 <= a < i ==> es@[a].0@ != es@[j as int].0@,
            decreases j - i,
        {
            if es[i].0 == es[j].0 {
                return false;
            }
            i = i + 1;
        }
        j = j + 1;
    }
    true
}

/// Whether each kind of tags names each tag once.
pub fn tags_are_wf(t: &TemplateInfoTags) -> (r: bool)
    ensures
        r == tags_wf(*t),
{
    names_are_unique(&t.languages) && names_are_unique(&t.frameworks) && names_are_unique(&t.libraries)
        && names_are_unique(&t.misc)
}

/// What the catalog knows of one template. `path` is its id.
pub struct TemplateInfo {
    pub name: String,
    pub path: String,
    pub author: String,
    pub description: String,
    pub tags: TemplateInfoTags,
}

/// The kind of a tag.
#[derive(Clone, Copy, Debug, PartialEq, Eq, Structural)]
pub enum TagType {
    Language,
    Framework,
    Library,
    Misc,
}

/// One tag of a template, as the template list shows it.
pub struct Tag {
    pub text: String,
    pub tag_type: TagType,
    pub version: Option<String>,
}

/// A tag as plain values: text, kind, version.
pub type TagModel = (Seq<char>, TagType, Option<Seq<char>>);

/// The view of an optional string.
pub open spec fn opt_view(o: Option<String>) -> Option<Seq<char>> {
    match o {
        Some(s) => Some(s@),
        None => None,
    }
}

impl View for Tag {
    type V = TagModel;

    open spec fn view(&self) -> TagModel {
        (self.text@, self.tag_type, opt_view(self.version))
    }
}

/// The tags as plain values.
pub open spec fn tags_view(ts: Seq<Tag>) -> Seq<TagModel> {
    Seq::new(ts.len(), |i: int| ts[i]@)
}

/// The tags of one kind, in the order of `entries`.
pub open spec fn tags_of_kind(entries: Seq<(String, Option<String>)>, kind: TagType) -> Seq<TagModel> {
    Seq::new(entries.len(), |i: int| (entries[i].0@, kind, opt_view(entries[i].1)))
}

/// All tags: languages, then frameworks, then libraries, then the rest.
pub open spec fn all_tags(t: TemplateInfoTags) -> Seq<TagModel> {
    tags_of_kind(t.languages@, TagType::Language) + tags_of_kind(t.frameworks@, TagType::Framework)
        + tags_of_kind(t.libraries@, TagType::Library) + tags_of_kind(t.misc@, TagType::Misc)
}

fn copy_opt(o: &Option<String>) -> (r: Option<String>)
    ensures
        opt_view(r) == opt_view(*o),
{
    match o {
        Some(s) => Some(s.clone()),
        None => None,
    }
}

impl Tag {
    pub fn new(text: String, tag_type: TagType, version: Option<String>) -> (r: Tag)
        ensures
            r@ == (text@, tag_type, opt_view(version)),
    {
        Tag { text, tag_type, version }
    }

    /// The version as shown after the tag's text: `@` and the version, or
    /// nothing when there is none.
    pub fn version_suffix(&self) -> (r: String)
        ensures
            r@ == match self.version {
                Some(v) => "@"@ + v@,
                None => Seq::<char>::empty(),
            },
    {
        match &self.version {
            Some(v) => {
                let mut r = String::from_str("@");
                r.append(v.as_str());
                r
            },
            None => String::new(),
        }
    }
}

fn push_tags(out: &mut Vec<Tag>, entries: &Vec<(String, Option<String>)>, kind: TagType)
    ensures
        tags_view(final(out)@) == tags_view(old(out)@) + tags_of_kind(entries@, kind),
{
    let ghost start = tags_view(out@);
    let mut i: usize = 0;
    while i < entries.len()
        invariant
            i <= entries@.len(),
            tags_view(out@) =~= start + tags_of_kind(entries@, kind).subrange(0, i as int),
        decreases entries@.len() - i,
    {
        let ghost before = tags_view(out@);
        out.push(Tag::new(entries[i].0.clone(), kind, copy_opt(&entries[i].1)));
        proof {
            assert(tags_view(out@) =~= before.push(out@.last()@));
        }
        i = i + 1;
    }
    proof {
        assert(tags_of_kind(entries@, kind).subrange(0, i as int) =~= tags_of_kind(entries@, kind));
    }
}

/// Every tag of a template, each with its kind: languages, then frameworks,
/// then libraries, then the rest, each kind in its given order.
pub fn parse_template_info_tags(template_info_tags: &TemplateInfoTags) -> (r: Vec<Tag>)
    ensures
        tags_view(r@) == all_tags(*template_info_tags),
{
    let mut out: Vec<Tag> = Vec::new();
    proof {
        assert(tags_view(out@) =~= seq![]);
    }
    push_tags(&mut out, &template_info_tags.languages, TagType::Language);
    push_tags(&mut out, &template_info_tags.frameworks, TagType::Framework);
    push_tags(&mut out, &template_info_tags.libraries, TagType::Library);
    push_tags(&mut out, &template_info_tags.misc, TagType::Misc);
    proof {
        assert(tags_view(out@) =~= all_tags(*template_info_tags));
    }
    out
}

/// The templates by id, after inserting `infos` in order: a later template
/// with the same id takes the place of an earlier one.
pub open spec fn catalog_of(infos: Seq<TemplateInfo>) -> Map<Seq<char>, TemplateInfo>
    decreases infos.len(),
{
    if infos.len() == 0 {
        Map::empty()
    } else {
        catalog_of(infos.drop_last()).insert(infos.last().path@, infos.last())
    }
}

/// Whether no id appears twice in `ts`.
pub open spec fn paths_distinct(ts: Seq<TemplateInfo>) -> bool {
    forall|i: int, j: int| 0 <= i < j < ts.len() ==> ts[i].path@ != ts[j].path@
}

/// The map that a list of templates with distinct ids stands for.
pub open spec fn listed_map(ts: Seq<TemplateInfo>) -> Map<Seq<char>, TemplateInfo> {
    Map::new(
        |k: Seq<char>| exists|i: int| 0 <= i < ts.len() && #[trigger] ts[i].path@ == k,
        |k: Seq<char>| ts[choose|i: int| 0 <= i < ts.len() && #[trigger] ts[i].path@ == k],
    )
}

/// The available templates, by id. Filled once from the fetched listing,
/// then only read.
pub struct TemplateCatalog {
    templates: Vec<TemplateInfo>,
}

impl View for TemplateCatalog {
    type V = Map<Seq<char>, TemplateInfo>;

    closed spec fn view(&self) -> Map<Seq<char>, TemplateInfo> {
        listed_map(self.templates@)
    }
}

proof fn lemma_listed_map_update(ts: Seq<TemplateInfo>, i: int, info: TemplateInfo)
    requires
        paths_distinct(ts),
        0 <= i < ts.len(),
        ts[i].path@ == info.path@,
    ensures
        paths_distinct(ts.update(i, info)),
        listed_map(ts.update(i, info)) == listed_map(ts).insert(info.path@, info),
{
    let us = ts.update(i, info);
    assert forall|a: int, b: int| 0 <= a < b < us.len() implies us[a].path@ != us[b].path@ by {
        assert(ts[a].path@ != ts[b].path@);
    }
    let m1 = listed_map(us);
    let m2 = listed_map(ts).insert(info.path@, info);
    assert forall|k: Seq<char>| m1.contains_key(k) <==> m2.contains_key(k) by {
        if exists|j: int| 0 <= j < us.len() && #[trigger] us[j].path@ == k {
            let j = choose|j: int| 0 <= j < us.len() && #[trigger] us[j].path@ == k;
            assert(ts[j].path@ == k);
        }
        if exists|j: int| 0 <= j < ts.len() && #[trigger] ts[j].path@ == k {
            let j = choose|j: int| 0 <= j < ts.len() && #[trigger] ts[j].path@ == k;
            assert(us[j].path@ == k);
        }
    }
    assert forall|k: Seq<char>| m1.contains_key(k) implies m1[k] == m2[k] by {
        let j = choose|j: int| 0 <= j < us.len() && #[trigger] us[j].path@ == k;
        if k == info.path@ {
            assert(j == i);
        } else {
            let j2 = choose|j2: int| 0 <= j2 < ts.len() && #[trigger] ts[j2].path@ == k;
            assert(j2 == j);
        }
    }
    assert(m1 =~= m2);
}

proof fn lemma_listed_map_push(ts: Seq<TemplateInfo>, info: TemplateInfo)
    requires
        paths_distinct(ts),
        forall|j: int| 0 <= j < ts.len() ==> #[trigger] ts[j].path@ != info.path@,
    ensures
        paths_distinct(ts.push(info)),
        listed_map(ts.push(info)) == listed_map(ts).insert(info.path@, info),
{
    let us = ts.push(info);
    assert forall|a: int, b: int| 0 <= a < b < us.len() implies us[a].path@ != us[b].path@ by {
        assert(us[a] == ts[a]);
        if b < ts.len() {
            assert(us[b] == ts[b]);
        }
    }
    let m1 = listed_map(us);
    let m2 = listed_map(ts).insert(info.path@, info);
    assert forall|k: Seq<char>| m1.contains_key(k) <==> m2.contains_key(k) by {
        if exists|j: int| 0 <= j < us.len() && #[trigger] us[j].path@ == k {
            let j = choose|j: int| 0 <= j < us.len() && #[trigger] us[j].path@ == k;
            if j < ts.len() {
                assert(ts[j].path@ == k);
            }
        }
        if exists|j: int| 0 <= j < ts.len() && #[trigger] ts[j].path@ == k {
            let j = choose|j: int| 0 <= j < ts.len() && #[trigger] ts[j].path@ == k;
            assert(us[j].path@ == k);
        }
        if k == info.path@ {
            assert(us[ts.len() as int].path@ == k);
        }
    }
    assert forall|k: Seq<char>| m1.contains_key(k) implies m1[k] == m2[k] by {
        let j = choose|j: int| 0 <= j < us.len() && #[trigger] us[j].path@ == k;
        if k == info.path@ {
            assert(j == ts.len());
        } else {
            let j2 = choose|j2: int| 0 <= j2 < ts.len() && #[trigger] ts[j2].path@ == k;
            assert(us[j2] == ts[j2]);
            assert(j2 == j);
        }
    }
    assert(m1 =~= m2);
}

impl TemplateCatalog {
    /// No id is listed twice, and every template's tags are well formed.
    pub closed spec fn wf(&self) -> bool {
        &&& paths_distinct(self.templates@)
        &&& forall|i: int| 0 <= i < self.templates@.len() ==> tags_wf((#[trigger] self.templates@[i]).tags)
    }

    fn index_of(&self, id: &str) -> (r: Option<usize>)
        ensures
            r matches Some(i) ==> i < self.templates@.len() && self.templates@[i as int].path@ == id@,
            r is None ==> forall|i: int| 0 <= i < self.templates@.len() ==> #[trigger] self.templates@[i].path@ != id@,
    {
        let key = String::from_str(id);
        let mut i: usize = 0;
        while i < self.templates.len()
            invariant
                key@ == id@,
                i <= self.templates@.len(),
                forall|k: int| 0 <= k < i ==> #[trigger] self.templates@[k].path@ != id@,
            decreases self.templates@.len() - i,
        {
            if self.templates[i].path == key {
                return Some(i);
            }
            i = i + 1;
        }
        None
    }

    /// The catalog of the fetched templates, keyed by id; where two share an
    /// id, the later one is kept.
    pub fn from_templates(infos: Vec<TemplateInfo>) -> (r: TemplateCatalog)
        requires
            forall|i: int| 0 <= i < infos@.len() ==> tags_wf((#[trigger] infos@[i]).tags),
        ensures
            r.wf(),
            r@ == catalog_of(infos@),
    {
        let mut catalog = TemplateCatalog { templates: Vec::new() };
        let mut rest = infos;
        let ghost all = rest@;
        let ghost mut n: int = 0;
        proof {
            assert(listed_map(catalog.templates@) =~= Map::<Seq<char>, TemplateInfo>::empty());
        }
        while rest.len() > 0
            invariant
                all == infos@,
                forall|i: int| 0 <= i < all.len() ==> tags_wf((#[trigger] all[i]).tags),
                0 <= n <= all.len(),
                rest@ == all.subrange(n, all.len() as int),
                catalog.wf(),
                catalog@ == catalog_of(all.subrange(0, n)),
            decreases rest@.len(),
        {
            let info = rest.remove(0);
            proof {
                assert(info == all[n]);
                assert(all.subrange(0, n + 1).drop_last() =~= all.subrange(0, n));
            }
            match catalog.index_of(info.path.as_str()) {
                Some(i) => {
                    proof {
                        lemma_listed_map_update(catalog.templates@, i as int, info);
                    }
                    let ghost before = catalog.templates@;
                    catalog.templates.set(i, info);
                    proof {
                        assert forall|k: int| 0 <= k < catalog.templates@.len() implies tags_wf((#[trigger] catalog.templates@[k]).tags) by {
                            if k != i {
                                assert(catalog.templates@[k] == before[k]);
                            }
                        }
                    }
                },
                None => {
                    proof {
                        lemma_listed_map_push(catalog.templates@, info);
                    }
                    let ghost before = catalog.templates@;
                    catalog.templates.push(info);
                    proof {
                        assert forall|k: int| 0 <= k < catalog.templates@.len() implies tags_wf((#[trigger] catalog.templates@[k]).tags) by {
                            if k < before.len() {
                                assert(catalog.templates@[k] == before[k]);
                            }
                        }
                    }
                },
            }
            proof {
                n = n + 1;
                assert(rest@ =~= all.subrange(n, all.len() as int));
            }
        }
        proof {
            assert(all.subrange(0, all.len() as int) =~= all);
        }
        catalog
    }

    /// Every template of the catalog, once each.
    pub fn list_templates(&self) -> (r: &Vec<TemplateInfo>)
        requires
            self.wf(),
        ensures
            forall|k: Seq<char>| self@.contains_key(k) <==> exists|i: int| 0 <= i < r@.len() && #[trigger] r@[i].path@ == k,
            forall|i: int| 0 <= i < r@.len() ==> self@[#[trigger] r@[i].path@] == r@[i],
            paths_distinct(r@),
            forall|i: int| 0 <= i < r@.len() ==> tags_wf((#[trigger] r@[i]).tags),
    {
        proof {
            assert forall|i: int| 0 <= i < self.templates@.len() implies self@[#[trigger] self.templates@[i].path@] == self.templates@[i] by {
                let ts = self.templates@;
                let j = choose|j: int| 0 <= j < ts.len() && #[trigger] ts[j].path@ == ts[i].path@;
                assert(j == i);
            }
        }
        &self.templates
    }

    /// The template with id `id`, if the catalog has it.
    pub fn get_template(&self, id: &str) -> (r: Option<&TemplateInfo>)
        requires
            self.wf(),
        ensures
            r is Some <==> self@.contains_key(id@),
            r matches Some(t) ==> *t == self@[id@] && tags_wf(t.tags),
    {
        match self.index_of(id) {
            Some(i) => {
                proof {
                    let ts = self.templates@;
                    let j = choose|j: int| 0 <= j < ts.len() && #[trigger] ts[j].path@ == id@;
                    assert(j == i);
                }
                Some(&self.templates[i])
            },
            None => None,
        }
    }
}

} // verus!
