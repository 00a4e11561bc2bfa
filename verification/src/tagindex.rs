use vstd::prelude::*;
use crate::config::Config;
use crate::note::{Tag, tag_seq_le};
use crate::autogen::{NoteEntry, opt_or_empty};
use crate::frontmatter::{
    YamlValue, spec_title_of_contents, title_of_contents, spec_table_lookup, spec_tags_of_string,
    spec_tags_of_list, spec_all_strings, parse_frontmatter, get_tags, spec_parse_frontmatter,
};
use crate::markdown::md_parse_of;
use crate::strutil::{spec_join, dup_string};
use crate::sorting::{spec_sort_by, sort_by_rel};

verus! {

// ---------------------------------------------------------------------------
// The tag index
// ---------------------------------------------------------------------------
//
// Scans the whole corpus, groups notes by tag, and renders one section
// per tag in tag order.  A note whose metadata cannot be read contributes
// an empty title and no tags; one bad note never blocks the index.

/// The tag views a frontmatter value provides; anything malformed counts
/// as no tags.
pub open spec fn spec_tags_opt(fm: YamlValue) -> Seq<Seq<Seq<char>>> {
    match fm {
        YamlValue::Table(pairs) => match spec_table_lookup(pairs@, "tags"@) {
            Some(v) => match v {
                YamlValue::Str(s) => spec_tags_of_string(s@),
                YamlValue::List(elems) => if spec_all_strings(elems@) {
                    spec_tags_of_list(elems@)
                } else {
                    Seq::empty()
                },
                _ => Seq::empty(),
            },
            None => Seq::empty(),
        },
        _ => Seq::empty(),
    }
}

/// The tag views of a note text, with every failure absorbed.
pub open spec fn spec_tags_of_contents(text: Seq<char>) -> Seq<Seq<Seq<char>>> {
    match md_parse_of(text) {
        Some(tree) => match spec_parse_frontmatter(tree) {
            Ok(fm) => spec_tags_opt(fm),
            Err(_) => Seq::empty(),
        },
        None => Seq::empty(),
    }
}

/// Extracts a note text's tags, absorbing every failure.
pub fn tags_of_contents(text: &str) -> (r: Vec<Tag>)
    ensures
        r.deep_view() == spec_tags_of_contents(text@),
{
    let fm = match crate::markdown::parse_markdown(text) {
        Ok(tree) => match parse_frontmatter(&tree) {
            Ok(fm) => fm,
            Err(_) => {
                let r: Vec<Tag> = Vec::new();
                proof {
                    assert(r.deep_view() =~~= spec_tags_of_contents(text@));
                }
                return r;
            },
        },
        Err(_) => {
            let r: Vec<Tag> = Vec::new();
            proof {
                assert(r.deep_view() =~~= spec_tags_of_contents(text@));
            }
            return r;
        },
    };
    match get_tags(&fm) {
        Ok(tags) => tags,
        Err(_) => {
            let r: Vec<Tag> = Vec::new();
            proof {
                assert(r.deep_view() =~~= spec_tags_of_contents(text@));
            }
            r
        },
    }
}

/// One section of the index: a tag and the notes carrying it, each as a
/// title and an absolute path, in scan order.
#[derive(Debug)]
pub struct TagGroup {
    pub tag: Tag,
    pub items: Vec<(String, String)>,
}

/// The ghost shape of a section.
pub struct TagGroupV {
    pub tag: Seq<Seq<char>>,
    pub items: Seq<(Seq<char>, Seq<char>)>,
}

impl DeepView for TagGroup {
    type V = TagGroupV;

    open spec fn deep_view(&self) -> TagGroupV {
        TagGroupV { tag: self.tag@, items: self.items.deep_view() }
    }
}

/// First group carrying the tag.
pub open spec fn spec_find_group(groups: Seq<TagGroupV>, tag: Seq<Seq<char>>, from: int) -> Option<
    int,
>
    decreases groups.len() - from,
{
    if from < 0 || from >= groups.len() {
        None
    } else if groups[from].tag == tag {
        Some(from)
    } else {
        spec_find_group(groups, tag, from + 1)
    }
}

/// Adds one note under one tag: into its group if the tag is known, as a
/// fresh group otherwise.
pub open spec fn spec_add_tag(
    groups: Seq<TagGroupV>,
    tag: Seq<Seq<char>>,
    item: (Seq<char>, Seq<char>),
) -> Seq<TagGroupV> {
    match spec_find_group(groups, tag, 0) {
        Some(j) => groups.update(
            j,
            TagGroupV { tag: groups[j].tag, items: groups[j].items.push(item) },
        ),
        None => groups.push(TagGroupV { tag: tag, items: seq![item] }),
    }
}

/// Adds one note under all its tags, in tag order of appearance.
pub open spec fn spec_add_tags(
    groups: Seq<TagGroupV>,
    tags: Seq<Seq<Seq<char>>>,
    item: (Seq<char>, Seq<char>),
) -> Seq<TagGroupV>
    decreases tags.len(),
{
    if tags.len() == 0 {
        groups
    } else {
        spec_add_tags(spec_add_tag(groups, tags[0], item), tags.drop_first(), item)
    }
}

/// The item a note contributes: its title (or nothing) and its path.
pub open spec fn spec_item_of(cfg: Config, e: NoteEntry) -> (Seq<char>, Seq<char>) {
    (
        opt_or_empty(spec_title_of_contents(e.contents@)),
        crate::note::spec_path_v(cfg, e.note.directories.deep_view(), e.note.id@),
    )
}

/// The groups after scanning the whole corpus in order.
pub open spec fn spec_groups(cfg: Config, corpus: Seq<NoteEntry>) -> Seq<TagGroupV>
    decreases corpus.len(),
{
    if corpus.len() == 0 {
        Seq::empty()
    } else {
        spec_add_tags(
            spec_groups(cfg, corpus.drop_last()),
            spec_tags_of_contents(corpus.last().contents@),
            spec_item_of(cfg, corpus.last()),
        )
    }
}

/// Group order: the tag order.
pub open spec fn spec_group_le(a: TagGroupV, b: TagGroupV) -> bool {
    tag_seq_le(a.tag, b.tag)
}

/// The rendered section of one group: heading, blank line, one link line
/// per note, blank line.
pub open spec fn spec_render_group(g: TagGroupV) -> Seq<Seq<char>>
    decreases g.items.len(),
{
    if g.items.len() == 0 {
        seq![Seq::<char>::empty()]
    } else {
        spec_render_group(TagGroupV { tag: g.tag, items: g.items.drop_last() }).drop_last().push(
            spec_item_line(g.items.last()),
        ).push(Seq::<char>::empty())
    }
}

/// One index item line: `- [title](path)`.
pub open spec fn spec_item_line(item: (Seq<char>, Seq<char>)) -> Seq<char> {
    crate::autogen::spec_link_line(item.0, item.1)
}

/// The heading line of a group: `# tag`.
pub open spec fn spec_heading_line(tag: Seq<Seq<char>>) -> Seq<char> {
    "# "@ + spec_join(tag, "::"@)
}

/// The rendered sections of all groups, in order.
pub open spec fn spec_render_groups(groups: Seq<TagGroupV>) -> Seq<Seq<char>>
    decreases groups.len(),
{
    if groups.len() == 0 {
        Seq::empty()
    } else {
        spec_render_groups(groups.drop_last()) + seq![
            spec_heading_line(groups.last().tag),
            Seq::<char>::empty(),
        ] + spec_render_group(groups.last())
    }
}

/// The whole tag index: groups gathered in scan order, sorted by tag,
/// each rendered as a section.
pub open spec fn spec_tag_index_lines(cfg: Config, corpus: Seq<NoteEntry>) -> Seq<Seq<char>> {
    spec_render_groups(
        spec_sort_by(spec_groups(cfg, corpus), |a: TagGroupV, b: TagGroupV| spec_group_le(a, b)),
    )
}

/// Builds the lines of the tag index buffer.
#[verifier::loop_isolation(false)]
pub fn tag_index_lines(config: &Config, corpus: &Vec<NoteEntry>) -> (r: Vec<String>)
    ensures
        r.deep_view() == spec_tag_index_lines(*config, corpus@),
{
    let mut groups: Vec<TagGroup> = Vec::new();
    proof {
        assert(corpus@.take(0) =~= Seq::<NoteEntry>::empty());
        assert(groups.deep_view() =~~= spec_groups(*config, corpus@.take(0)));
    }
    let mut i: usize = 0;
    while i < corpus.len()
        invariant
            i <= corpus.len(),
            groups.deep_view() == spec_groups(*config, corpus@.take(i as int)),
        decreases corpus.len() - i,
    {
        let e = &corpus[i];
        let title = match title_of_contents(e.contents.as_str()) {
            Some(t) => t,
            None => String::new(),
        };
        let path = e.note.path(config);
        let tags = tags_of_contents(e.contents.as_str());
        let ghost item = spec_item_of(*config, corpus@[i as int]);
        proof {
            assert(title@ == item.0 && path@ == item.1);
        }
        let mut t: usize = 0;
        while t < tags.len()
            invariant
                t <= tags.len(),
                title@ == item.0,
                path@ == item.1,
                tags.deep_view() == spec_tags_of_contents(corpus@[i as int].contents@),
                groups.deep_view() == spec_add_tags(
                    spec_groups(*config, corpus@.take(i as int)),
                    tags.deep_view().take(t as int),
                    item,
                ),
            decreases tags.len() - t,
        {
            proof {
                lemma_add_tags_snoc(
                    spec_groups(*config, corpus@.take(i as int)),
                    tags.deep_view(),
                    t as int,
                    item,
                );
            }
            add_tag(&mut groups, &tags[t], &title, &path);
            proof {
                assert(tags.deep_view()[t as int] == tags@[t as int]@);
            }
            t = t + 1;
        }
        proof {
            assert(tags.deep_view().take(tags.len() as int) =~= tags.deep_view());
            assert(corpus@.take(i + 1).drop_last() =~= corpus@.take(i as int));
            assert(corpus@.take(i + 1).last() == corpus@[i as int]);
        }
        i = i + 1;
    }
    proof {
        assert(corpus@.take(corpus.len() as int) =~= corpus@);
    }
    let ghost le = |a: TagGroupV, b: TagGroupV| spec_group_le(a, b);
    let cmp = |a: &TagGroup, b: &TagGroup| -> (r: bool)
        ensures
            r == spec_group_le(a.deep_view(), b.deep_view()),
        { a.tag.le(&b.tag) };
    let sorted = sort_by_rel(groups, cmp, Ghost(le));
    render_groups(&sorted)
}

/// Adding the tags of a prefix one longer adds that tag last.
proof fn lemma_add_tags_snoc(
    groups: Seq<TagGroupV>,
    tags: Seq<Seq<Seq<char>>>,
    t: int,
    item: (Seq<char>, Seq<char>),
)
    requires
        0 <= t < tags.len(),
    ensures
        spec_add_tags(groups, tags.take(t + 1), item) == spec_add_tag(
            spec_add_tags(groups, tags.take(t), item),
            tags[t],
            item,
        ),
    decreases t,
{
    let g1 = spec_add_tag(groups, tags[0], item);
    if t == 0 {
        assert(tags.take(1).drop_first() =~= Seq::<Seq<Seq<char>>>::empty());
        assert(tags.take(1)[0] == tags[0]);
        assert(tags.take(0) =~= Seq::<Seq<Seq<char>>>::empty());
        assert(spec_add_tags(groups, tags.take(1), item) == spec_add_tags(
            g1,
            tags.take(1).drop_first(),
            item,
        ));
        assert(spec_add_tags(g1, Seq::empty(), item) == g1);
        assert(spec_add_tags(groups, Seq::empty(), item) == groups);
    } else {
        lemma_add_tags_snoc(g1, tags.drop_first(), t - 1, item);
        assert(tags.take(t + 1).drop_first() =~= tags.drop_first().take(t));
        assert(tags.take(t).drop_first() =~= tags.drop_first().take(t - 1));
        assert(tags.take(t + 1)[0] == tags[0]);
        assert(tags.take(t)[0] == tags[0]);
        assert(tags.drop_first()[t - 1] == tags[t]);
        assert(spec_add_tags(groups, tags.take(t + 1), item) == spec_add_tags(
            g1,
            tags.drop_first().take(t),
            item,
        ));
        assert(spec_add_tags(groups, tags.take(t), item) == spec_add_tags(
            g1,
            tags.drop_first().take(t - 1),
            item,
        ));
    }
}

/// Files one note under one tag.
#[verifier::loop_isolation(false)]
fn add_tag(groups: &mut Vec<TagGroup>, tag: &Tag, title: &String, path: &String)
    ensures
        final(groups).deep_view() == spec_add_tag(
            old(groups).deep_view(),
            tag@,
            (title@, path@),
        ),
{
    let ghost g0 = groups.deep_view();
    let mut j: usize = 0;
    while j < groups.len()
        invariant
            j <= groups.len(),
            *groups == *old(groups),
            forall|k: int| 0 <= k < j ==> (#[trigger] g0[k]).tag != tag@,
        decreases groups.len() - j,
    {
        proof {
            assert(g0[j as int].tag == groups@[j as int].tag@);
        }
        if groups[j].tag.eq_tag(tag) {
            let mut g = groups.remove(j);
            let ghost gv = g.deep_view();
            let ghost items0 = g.items.deep_view();
            let ghost itemsv0 = g.items@;
            g.items.push((dup_string(title), dup_string(path)));
            proof {
                assert(g.items.deep_view()[itemsv0.len() as int] == g.items@[itemsv0.len() as int].deep_view());
                assert forall|m: int| 0 <= m < itemsv0.len() implies #[trigger] g.items.deep_view()[m]
                    == items0[m] by {
                    assert(g.items@[m] == itemsv0[m]);
                }
                assert(g.items.deep_view() =~~= items0.push((title@, path@)));
            }
            let ghost before_insert = groups.deep_view();
            let ghost beforev = groups@;
            groups.insert(j, g);
            proof {
                assert(spec_find_group(g0, tag@, 0) == Some(j as int)) by {
                    lemma_find_group_unique(g0, tag@, 0, j as int);
                }
                assert forall|k: int| 0 <= k < groups@.len() implies #[trigger] groups.deep_view()[k]
                    == spec_add_tag(g0, tag@, (title@, path@))[k] by {
                    if k < j {
                        assert(groups@[k] == beforev[k]);
                        assert(beforev[k] == old(groups)@[k]);
                    } else if k == j {
                        assert(groups@[k] == g);
                    } else {
                        assert(groups@[k] == beforev[k - 1]);
                        assert(beforev[k - 1] == old(groups)@[k]);
                    }
                }
                assert(groups.deep_view() =~~= spec_add_tag(g0, tag@, (title@, path@)));
            }
            return ;
        }
        j = j + 1;
    }
    proof {
        assert(spec_find_group(g0, tag@, 0) is None) by {
            lemma_find_group_none(g0, tag@, 0);
        }
    }
    let ghost beforev = groups@;
    let mut items: Vec<(String, String)> = Vec::new();
    items.push((dup_string(title), dup_string(path)));
    let g = TagGroup { tag: Tag(crate::strutil::dup_string_vec(&tag.0)), items };
    proof {
        assert(g.deep_view().tag =~~= tag@);
        assert(g.deep_view().items =~~= seq![(title@, path@)]);
    }
    groups.push(g);
    proof {
        assert forall|k: int| 0 <= k < groups@.len() implies #[trigger] groups.deep_view()[k]
            == spec_add_tag(g0, tag@, (title@, path@))[k] by {
            if k < beforev.len() {
                assert(groups@[k] == beforev[k]);
            }
        }
        assert(groups.deep_view() =~~= spec_add_tag(g0, tag@, (title@, path@)));
    }
}

/// A scan that found no equal tag pins the find to the found index.
proof fn lemma_find_group_unique(groups: Seq<TagGroupV>, tag: Seq<Seq<char>>, from: int, j: int)
    requires
        0 <= from <= j < groups.len(),
        groups[j].tag == tag,
        forall|k: int| from <= k < j ==> (#[trigger] groups[k]).tag != tag,
    ensures
        spec_find_group(groups, tag, from) == Some(j),
    decreases j - from,
{
    if from == j {
    } else {
        lemma_find_group_unique(groups, tag, from + 1, j);
    }
}

/// A scan that found no equal tag at all pins the find to nothing.
proof fn lemma_find_group_none(groups: Seq<TagGroupV>, tag: Seq<Seq<char>>, from: int)
    requires
        0 <= from,
        forall|k: int| from <= k < groups.len() ==> (#[trigger] groups[k]).tag != tag,
    ensures
        spec_find_group(groups, tag, from) is None,
    decreases groups.len() - from,
{
    if from < groups.len() {
        lemma_find_group_none(groups, tag, from + 1);
    }
}

/// Renders all group sections.
#[verifier::loop_isolation(false)]
fn render_groups(groups: &Vec<TagGroup>) -> (r: Vec<String>)
    ensures
        r.deep_view() == spec_render_groups(groups.deep_view()),
{
    let mut out: Vec<String> = Vec::new();
    proof {
        assert(groups.deep_view().take(0) =~= Seq::<TagGroupV>::empty());
        assert(out.deep_view() =~~= spec_render_groups(groups.deep_view().take(0)));
    }
    let mut i: usize = 0;
    while i < groups.len()
        invariant
            i <= groups.len(),
            out.deep_view() == spec_render_groups(groups.deep_view().take(i as int)),
        decreases groups.len() - i,
    {
        let g = &groups[i];
        // heading and blank line
        let mut heading = String::from_str("# ");
        let tag_text = g.tag.render();
        heading.append(tag_text.as_str());
        let ghost pre0 = out.deep_view();
        let ghost prev0 = out@;
        out.push(heading);
        proof {
            assert(out.deep_view()[prev0.len() as int] == out@[prev0.len() as int]@);
            assert forall|k: int| 0 <= k < prev0.len() implies #[trigger] out.deep_view()[k]
                == pre0[k] by {
                assert(out@[k] == prev0[k]);
            }
            assert(out.deep_view() =~~= pre0.push(spec_heading_line(g.tag@)));
        }
        let ghost pre1 = out.deep_view();
        let ghost prev1 = out@;
        out.push(String::new());
        proof {
            assert(out.deep_view()[prev1.len() as int] == out@[prev1.len() as int]@);
            assert forall|k: int| 0 <= k < prev1.len() implies #[trigger] out.deep_view()[k]
                == pre1[k] by {
                assert(out@[k] == prev1[k]);
            }
            assert(out.deep_view() =~~= pre1.push(Seq::<char>::empty()));
        }
        // item lines
        let ghost section0 = out.deep_view();
        let mut m: usize = 0;
        while m < g.items.len()
            invariant
                m <= g.items.len(),
                out.deep_view() == section0 + Seq::new(
                    m as nat,
                    |q: int| spec_item_line(g.items.deep_view()[q]),
                ),
            decreases g.items.len() - m,
        {
            let line = crate::autogen::render_link_line(
                g.items[m].0.as_str(),
                g.items[m].1.as_str(),
            );
            let ghost pre = out.deep_view();
            let ghost prev = out@;
            out.push(line);
            proof {
                assert(g.items.deep_view()[m as int] == g.items@[m as int].deep_view());
                assert(out.deep_view()[prev.len() as int] == out@[prev.len() as int]@);
                assert forall|k: int| 0 <= k < prev.len() implies #[trigger] out.deep_view()[k]
                    == pre[k] by {
                    assert(out@[k] == prev[k]);
                }
                assert(out.deep_view() =~~= section0 + Seq::new(
                    (m + 1) as nat,
                    |q: int| spec_item_line(g.items.deep_view()[q]),
                ));
            }
            m = m + 1;
        }
        // closing blank line
        let ghost pre2 = out.deep_view();
        let ghost prev2 = out@;
        out.push(String::new());
        proof {
            assert(out.deep_view()[prev2.len() as int] == out@[prev2.len() as int]@);
            assert forall|k: int| 0 <= k < prev2.len() implies #[trigger] out.deep_view()[k]
                == pre2[k] by {
                assert(out@[k] == prev2[k]);
            }
            lemma_render_group_shape(g.deep_view());
            assert(groups.deep_view().take(i + 1).drop_last() =~= groups.deep_view().take(
                i as int,
            ));
            assert(groups.deep_view().take(i + 1).last() == groups.deep_view()[i as int]);
            assert(out.deep_view() =~~= spec_render_groups(groups.deep_view().take(i + 1)));
        }
        i = i + 1;
    }
    proof {
        assert(groups.deep_view().take(groups.len() as int) =~= groups.deep_view());
    }
    out
}

/// A rendered group section is its item lines followed by one blank line.
proof fn lemma_render_group_shape(g: TagGroupV)
    ensures
        spec_render_group(g) == Seq::new(
            g.items.len(),
            |q: int| spec_item_line(g.items[q]),
        ).push(Seq::<char>::empty()),
    decreases g.items.len(),
{
    if g.items.len() == 0 {
        assert(spec_render_group(g) =~~= Seq::new(
            g.items.len(),
            |q: int| spec_item_line(g.items[q]),
        ).push(Seq::<char>::empty()));
    } else {
        let inner = TagGroupV { tag: g.tag, items: g.items.drop_last() };
        lemma_render_group_shape(inner);
        assert(spec_render_group(g) =~~= Seq::new(
            g.items.len(),
            |q: int| spec_item_line(g.items[q]),
        ).push(Seq::<char>::empty())) by {
            let full = Seq::new(g.items.len(), |q: int| spec_item_line(g.items[q]));
            let part = Seq::new(inner.items.len(), |q: int| spec_item_line(inner.items[q]));
            assert(spec_render_group(inner).drop_last() =~~= part);
            assert forall|q: int| 0 <= q < inner.items.len() implies part[q] == full[q] by {
                assert(inner.items[q] == g.items[q]);
            }
            assert(part.push(spec_item_line(g.items.last())) =~~= full);
        }
    }
}

} // verus!

verus! {

/// Law: the tag index renders a permutation of exactly the gathered
/// groups, with neighbouring sections ordered by the tag order.
pub proof fn lemma_tag_index_groups_sorted(cfg: Config, corpus: Seq<NoteEntry>)
    ensures
        ({
            let groups = spec_groups(cfg, corpus);
            let le = |a: TagGroupV, b: TagGroupV| spec_group_le(a, b);
            let sorted = spec_sort_by(groups, le);
            &&& sorted.to_multiset() == groups.to_multiset()
            &&& sorted.len() == groups.len()
            &&& crate::sorting::adj_sorted_by(sorted, le)
        }),
{
    let groups = spec_groups(cfg, corpus);
    let le = |a: TagGroupV, b: TagGroupV| spec_group_le(a, b);
    assert forall|a: TagGroupV, b: TagGroupV| #[trigger] le(a, b) || #[trigger] le(b, a) by {
        crate::note::lemma_tag_le_total(a.tag, b.tag);
    }
    crate::sorting::lemma_sort_by_props(groups, le);
}

} // verus!
