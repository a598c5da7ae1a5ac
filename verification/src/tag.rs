//! Capability tags, their balance weights, and the free-text tag field.

use crate::text::{
    bounds_pieces, chars_of, spells, spells_span, split_on, split_spans, texts, trim_span, trimmed,
};
use vstd::prelude::*;

verus! {

/// A capability tag attached to a player.
#[derive(Clone, Copy, Debug, PartialEq, Eq, Hash, Structural)]
pub enum Tag {
    Playmaker,
    Runner,
    Def,
    Atk,
    Gk,
}

/// Balance weight of a tag; the goalkeeper tag weighs nothing.
pub open spec fn tag_weight(t: Tag) -> int {
    match t {
        Tag::Playmaker => 50,
        Tag::Runner => 40,
        Tag::Def => 20,
        Tag::Atk => 10,
        Tag::Gk => 0,
    }
}

/// The canonical spelling of a tag.
pub open spec fn tag_name(t: Tag) -> Seq<char> {
    match t {
        Tag::Playmaker => seq!['P', 'L', 'A', 'Y', 'M', 'A', 'K', 'E', 'R'],
        Tag::Runner => seq!['R', 'U', 'N', 'N', 'E', 'R'],
        Tag::Def => seq!['D', 'E', 'F'],
        Tag::Atk => seq!['A', 'T', 'K'],
        Tag::Gk => seq!['G', 'K'],
    }
}

/// The tag that `s` names once surrounding white space is dropped and ASCII
/// case is disregarded, if any.
pub open spec fn parse_tag(s: Seq<char>) -> Option<Tag> {
    let t = trimmed(s);
    if spells(t, tag_name(Tag::Playmaker)) {
        Some(Tag::Playmaker)
    } else if spells(t, tag_name(Tag::Runner)) {
        Some(Tag::Runner)
    } else if spells(t, tag_name(Tag::Def)) {
        Some(Tag::Def)
    } else if spells(t, tag_name(Tag::Atk)) {
        Some(Tag::Atk)
    } else if spells(t, tag_name(Tag::Gk)) {
        Some(Tag::Gk)
    } else {
        None
    }
}

/// The tags that the pieces name, each once, in order of first appearance.
pub open spec fn collect_tags(pieces: Seq<Seq<char>>) -> Seq<Tag>
    decreases pieces.len(),
{
    if pieces.len() == 0 {
        Seq::empty()
    } else {
        let before = collect_tags(pieces.drop_last());
        match parse_tag(pieces.last()) {
            Some(t) => if before.contains(t) {
                before
            } else {
                before.push(t)
            },
            None => before,
        }
    }
}

/// The tag set that a comma-separated field denotes. Pieces that name no tag
/// are dropped, and a tag named twice counts once.
pub open spec fn parse_tags(field: Seq<char>) -> Seq<Tag> {
    collect_tags(split_on(field, ','))
}

/// Sum of the weights of `tags`.
pub open spec fn tag_total(tags: Seq<Tag>) -> int
    decreases tags.len(),
{
    if tags.len() == 0 {
        0
    } else {
        tag_total(tags.drop_last()) + tag_weight(tags.last())
    }
}

/// Tag value of a player whose tag field is `field`.
pub open spec fn tag_value_of(field: Seq<char>) -> int {
    tag_total(parse_tags(field))
}

/// Sum of the weights of the tags that occur in `tags`, each counted once.
pub open spec fn weight_of_present(tags: Seq<Tag>) -> int {
    (if tags.contains(Tag::Playmaker) { 50int } else { 0 })
    + (if tags.contains(Tag::Runner) { 40int } else { 0 })
    + (if tags.contains(Tag::Def) { 20int } else { 0 })
    + (if tags.contains(Tag::Atk) { 10int } else { 0 })
}

/// The collected tags hold no tag twice.
pub proof fn lemma_collect_tags_distinct(pieces: Seq<Seq<char>>)
    ensures
        collect_tags(pieces).no_duplicates(),
    decreases pieces.len(),
{
    if pieces.len() > 0 {
        lemma_collect_tags_distinct(pieces.drop_last());
    }
}

/// Without repeats, the total weight is the weight of the tags present.
pub proof fn lemma_tag_total_distinct(tags: Seq<Tag>)
    requires
        tags.no_duplicates(),
    ensures
        tag_total(tags) == weight_of_present(tags),
        0 <= tag_total(tags) <= 120,
    decreases tags.len(),
{
    if tags.len() > 0 {
        let before = tags.drop_last();
        let t = tags.last();
        lemma_tag_total_distinct(before);
        assert(!before.contains(t)) by {
            if before.contains(t) {
                let i = choose|i: int| 0 <= i < before.len() && before[i] == t;
                assert(tags[i] == tags[tags.len() - 1]);
            }
        }
        assert forall|u: Tag| tags.contains(u) == (before.contains(u) || u == t) by {
            if tags.contains(u) {
                let i = choose|i: int| 0 <= i < tags.len() && tags[i] == u;
                if i < before.len() {
                    assert(before[i] == u);
                }
            }
            if before.contains(u) {
                let i = choose|i: int| 0 <= i < before.len() && before[i] == u;
                assert(tags[i] == u);
            }
            if u == t {
                assert(tags[tags.len() - 1] == u);
            }
        }
    } else {
        assert(!tags.contains(Tag::Playmaker));
        assert(!tags.contains(Tag::Runner));
        assert(!tags.contains(Tag::Def));
        assert(!tags.contains(Tag::Atk));
    }
}

/// A tag field is worth between 0 and 120.
pub proof fn lemma_tag_value_bounds(field: Seq<char>)
    ensures
        parse_tags(field).no_duplicates(),
        tag_value_of(field) == weight_of_present(parse_tags(field)),
        0 <= tag_value_of(field) <= 120,
{
    lemma_collect_tags_distinct(split_on(field, ','));
    lemma_tag_total_distinct(parse_tags(field));
}

impl Tag {
    /// Weight used when balancing teams.
    pub fn weight(self) -> (w: i32)
        ensures
            w == tag_weight(self),
    {
        match self {
            Tag::Playmaker => 50,
            Tag::Runner => 40,
            Tag::Def => 20,
            Tag::Atk => 10,
            Tag::Gk => 0,
        }
    }

    /// Reads a tag name, disregarding surrounding white space and ASCII case.
    pub fn from_str(s: &str) -> (r: Option<Tag>)
        ensures
            r == parse_tag(s@),
    {
        let v = chars_of(s);
        let r = tag_in_span(&v, 0, v.len());
        assert(v@.subrange(0, v.len() as int) =~= s@);
        r
    }

    /// The canonical spelling of the tag.
    pub fn name(self) -> (r: &'static str)
        ensures
            r@ == tag_name(self),
    {
        proof {
            reveal_strlit("PLAYMAKER");
            reveal_strlit("RUNNER");
            reveal_strlit("DEF");
            reveal_strlit("ATK");
            reveal_strlit("GK");
        }
        let r = match self {
            Tag::Playmaker => "PLAYMAKER",
            Tag::Runner => "RUNNER",
            Tag::Def => "DEF",
            Tag::Atk => "ATK",
            Tag::Gk => "GK",
        };
        assert(r@ =~= tag_name(self));
        r
    }

    /// The canonical spelling of the tag, as an owned string.
    pub fn to_string(&self) -> (r: String)
        ensures
            r@ == tag_name(*self),
    {
        self.name().to_owned()
    }
}

/// The tag that `v[lo..hi]` names, if any.
pub(crate) fn tag_in_span(v: &Vec<char>, lo: usize, hi: usize) -> (r: Option<Tag>)
    requires
        lo <= hi <= v.len(),
    ensures
        r == parse_tag(v@.subrange(lo as int, hi as int)),
{
    let (a, b) = trim_span(v, lo, hi);
    if spells_span(v, a, b, Tag::Playmaker.name()) {
        Some(Tag::Playmaker)
    } else if spells_span(v, a, b, Tag::Runner.name()) {
        Some(Tag::Runner)
    } else if spells_span(v, a, b, Tag::Def.name()) {
        Some(Tag::Def)
    } else if spells_span(v, a, b, Tag::Atk.name()) {
        Some(Tag::Atk)
    } else if spells_span(v, a, b, Tag::Gk.name()) {
        Some(Tag::Gk)
    } else {
        None
    }
}

/// Whether `tags` holds `tag`.
pub fn holds_tag(tags: &Vec<Tag>, tag: Tag) -> (r: bool)
    ensures
        r == tags@.contains(tag),
{
    let mut i: usize = 0;
    while i < tags.len()
        invariant
            i <= tags.len(),
            forall|j: int| 0 <= j < i ==> tags@[j] != tag,
        decreases tags.len() - i,
    {
        if tags[i] == tag {
            return true;
        }
        i += 1;
    }
    false
}

/// Sum of the weights of `tags`, which hold no tag twice: at most 120.
pub(crate) fn total_weight(tags: &Vec<Tag>) -> (r: i32)
    requires
        tags@.no_duplicates(),
    ensures
        r == tag_total(tags@),
        0 <= r <= 120,
{
    let mut total: i32 = 0;
    let mut i: usize = 0;
    proof {
        lemma_at_most_five(tags@);
        lemma_tag_total_distinct(tags@);
        assert(tags@.take(0) =~= Seq::<Tag>::empty());
    }
    while i < tags.len()
        invariant
            i <= tags.len() <= 5,
            total == tag_total(tags@.take(i as int)),
            0 <= total <= 50 * i,
        decreases tags.len() - i,
    {
        let w: i32 = tags[i].weight();
        proof {
            assert(tags@.take(i + 1).drop_last() =~= tags@.take(i as int));
            assert(tags@.take(i + 1).last() == tags@[i as int]);
        }
        total = total + w;
        i += 1;
    }
    proof {
        assert(tags@.take(tags.len() as int) =~= tags@);
    }
    total
}

/// Reads a comma-separated tag field into the tags it names, each once, in
/// order of first appearance. Pieces that name no tag are dropped.
pub fn read_tags(field: &str) -> (r: Vec<Tag>)
    ensures
        r@ == parse_tags(field@),
        r@.no_duplicates(),
        r.len() <= 5,
{
    let v = chars_of(field);
    let spans = split_spans(&v, ',');
    let ghost pieces = split_on(v@, ',');
    let mut out: Vec<Tag> = Vec::new();
    let mut i: usize = 0;
    assert(pieces.take(0) =~= Seq::<Seq<char>>::empty());
    while i < spans.len()
        invariant
            i <= spans.len(),
            v@ == field@,
            pieces == split_on(v@, ','),
            bounds_pieces(spans@, v@, ','),
            out@ == collect_tags(pieces.take(i as int)),
        decreases spans.len() - i,
    {
        proof {
            assert(pieces.take(i + 1).drop_last() =~= pieces.take(i as int));
            assert(pieces.take(i + 1).last() == pieces[i as int]);
        }
        let (lo, hi) = spans[i];
        match tag_in_span(&v, lo, hi) {
            Some(t) => {
                if !holds_tag(&out, t) {
                    out.push(t);
                }
            },
            None => {},
        }
        i += 1;
    }
    proof {
        assert(pieces.take(spans.len() as int) =~= pieces);
        lemma_collect_tags_distinct(split_on(field@, ','));
        lemma_at_most_five(out@);
    }
    out
}

/// The pieces without their surrounding white space, those left empty
/// dropped.
pub open spec fn collect_labels(pieces: Seq<Seq<char>>) -> Seq<Seq<char>>
    decreases pieces.len(),
{
    if pieces.len() == 0 {
        Seq::empty()
    } else {
        let before = collect_labels(pieces.drop_last());
        if trimmed(pieces.last()).len() > 0 {
            before.push(trimmed(pieces.last()))
        } else {
            before
        }
    }
}

/// The labels that a comma-separated tag field shows: its pieces as they
/// were entered, without surrounding white space, empty ones dropped.
pub open spec fn labels_of(field: Seq<char>) -> Seq<Seq<char>> {
    collect_labels(split_on(field, ','))
}

/// The labels that a comma-separated tag field shows, recognized as tags or
/// not.
pub fn tag_labels(field: &str) -> (r: Vec<String>)
    ensures
        texts(r@) == labels_of(field@),
{
    let v = chars_of(field);
    let spans = split_spans(&v, ',');
    let ghost pieces = split_on(v@, ',');
    let mut out: Vec<String> = Vec::new();
    let mut i: usize = 0;
    assert(pieces.take(0) =~= Seq::<Seq<char>>::empty());
    assert(texts(out@) =~= Seq::<Seq<char>>::empty());
    while i < spans.len()
        invariant
            i <= spans.len(),
            v@ == field@,
            pieces == split_on(v@, ','),
            bounds_pieces(spans@, v@, ','),
            texts(out@) == collect_labels(pieces.take(i as int)),
        decreases spans.len() - i,
    {
        proof {
            assert(pieces.take(i + 1).drop_last() =~= pieces.take(i as int));
            assert(pieces.take(i + 1).last() == pieces[i as int]);
        }
        let (lo, hi) = spans[i];
        let (a, b) = trim_span(&v, lo, hi);
        if a < b {
            let label = field.substring_char(a, b).to_owned();
            let ghost before = texts(out@);
            out.push(label);
            assert(texts(out@) =~= before.push(label@));
        }
        i += 1;
    }
    assert(pieces.take(spans.len() as int) =~= pieces);
    out
}

/// A sequence that repeats no tag has at most five entries.
pub proof fn lemma_at_most_five(tags: Seq<Tag>)
    requires
        tags.no_duplicates(),
    ensures
        tags.len() <= 5,
{
    let all: Set<Tag> = set![Tag::Playmaker, Tag::Runner, Tag::Def, Tag::Atk, Tag::Gk];
    assert forall|t: Tag| tags.to_set().contains(t) implies all.contains(t) by {
        match t {
            Tag::Playmaker => {},
            Tag::Runner => {},
            Tag::Def => {},
            Tag::Atk => {},
            Tag::Gk => {},
        }
    }
    assert(tags.to_set().subset_of(all));
    tags.unique_seq_to_set();
    vstd::set_lib::lemma_len_subset(tags.to_set(), all);
    assert(all.len() <= 5) by {
        vstd::set::axiom_set_insert_len(set![], Tag::Playmaker);
    }
}

} // verus!
