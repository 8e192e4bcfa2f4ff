//! A collection of items, with its distinct tags, its names and tag filtering.
use vstd::prelude::*;
use vstd::string::StrSliceExecFns;
use crate::name::{Element, ItemV, TagError, views_of, follows_convention, item_of_name};

verus! {

pub open spec fn items_of(v: Seq<Element>) -> Seq<ItemV> {
    v.map_values(|e: Element| e@)
}

/// An ordered list of items, in the order the directory listing gave them.
#[derive(Debug, PartialEq, Eq)]
pub struct Elements(pub Vec<Element>);

impl View for Elements {
    type V = Seq<ItemV>;

    open spec fn view(&self) -> Seq<ItemV> {
        items_of(self.0@)
    }
}

/// The tags of `tags` that are not in `req`, in order.
pub open spec fn without(tags: Seq<Seq<char>>, req: Set<Seq<char>>) -> Seq<Seq<char>>
    decreases tags.len(),
{
    if tags.len() == 0 {
        tags
    } else {
        let rest = without(tags.drop_last(), req);
        if req.contains(tags.last()) {
            rest
        } else {
            rest.push(tags.last())
        }
    }
}

/// An item is kept when it carries every required tag; what is kept loses those tags.
pub open spec fn narrow(req: Set<Seq<char>>) -> spec_fn(ItemV) -> Option<ItemV> {
    |it: ItemV|
        if req.subset_of(it.tag_set()) {
            Some(ItemV { name: it.name, tags: without(it.tags, req) })
        } else {
            None
        }
}

/// The items that carry every tag of `req`, each without the tags of `req`.
pub open spec fn filter_items(items: Seq<ItemV>, req: Set<Seq<char>>) -> Seq<ItemV> {
    items.filter_map(narrow(req))
}

/// Every tag of every item, item after item.
pub open spec fn all_tags(items: Seq<ItemV>) -> Seq<Seq<char>>
    decreases items.len(),
{
    if items.len() == 0 {
        Seq::empty()
    } else {
        all_tags(items.drop_last()) + items.last().tags
    }
}

/// The first occurrence of each element, in order.
pub open spec fn dedup(s: Seq<Seq<char>>) -> Seq<Seq<char>>
    decreases s.len(),
{
    if s.len() == 0 {
        s
    } else {
        let r = dedup(s.drop_last());
        if r.contains(s.last()) {
            r
        } else {
            r.push(s.last())
        }
    }
}

/// The distinct tags of a collection, in order of first appearance.
pub open spec fn distinct_tags(items: Seq<ItemV>) -> Seq<Seq<char>> {
    dedup(all_tags(items))
}

pub open spec fn names_of(items: Seq<ItemV>) -> Seq<Seq<char>> {
    items.map_values(|it: ItemV| it.name)
}

pub open spec fn name_set(items: Seq<ItemV>) -> Set<Seq<char>> {
    names_of(items).to_set()
}

/// Names starting with `.` are hidden and take no part in a collection.
pub open spec fn is_hidden(n: Seq<char>) -> bool {
    n.len() > 0 && n[0] == '.'
}

pub open spec fn parse_visible(n: Seq<char>) -> Option<ItemV> {
    if is_hidden(n) {
        None
    } else {
        Some(item_of_name(n))
    }
}

/// The items of the visible names of a listing, in order.
pub open spec fn visible_items(names: Seq<Seq<char>>) -> Seq<ItemV> {
    names.filter_map(|n: Seq<char>| parse_visible(n))
}

proof fn lemma_push_contains(r: Seq<Seq<char>>, x: Seq<char>)
    ensures
        forall|t: Seq<char>| r.push(x).contains(t) <==> (r.contains(t) || t == x),
{
    assert forall|t: Seq<char>| r.push(x).contains(t) <==> (r.contains(t) || t == x) by {
        if r.push(x).contains(t) {
            let k = choose|k: int| 0 <= k < r.push(x).len() && r.push(x)[k] == t;
            if k < r.len() {
                assert(r[k] == t);
            }
        }
        if r.contains(t) {
            let k = choose|k: int| 0 <= k < r.len() && r[k] == t;
            assert(r.push(x)[k] == t);
        }
        if t == x {
            assert(r.push(x)[r.len() as int] == t);
        }
    }
}

proof fn lemma_dedup(s: Seq<Seq<char>>)
    ensures
        dedup(s).no_duplicates(),
        forall|t: Seq<char>| dedup(s).contains(t) <==> s.contains(t),
    decreases s.len(),
{
    if s.len() > 0 {
        let r = dedup(s.drop_last());
        lemma_dedup(s.drop_last());
        assert(s.drop_last().push(s.last()) =~= s);
        lemma_push_contains(s.drop_last(), s.last());
        lemma_push_contains(r, s.last());
        assert forall|t: Seq<char>| dedup(s).contains(t) <==> s.contains(t) by {
            assert(s.contains(t) <==> s.drop_last().push(s.last()).contains(t));
            assert(s.contains(t) <==> (s.drop_last().contains(t) || t == s.last()));
            assert(r.contains(t) <==> s.drop_last().contains(t));
            if r.contains(s.last()) {
                assert(dedup(s) == r);
            } else {
                assert(dedup(s) == r.push(s.last()));
            }
        }
    }
}

proof fn lemma_all_tags(items: Seq<ItemV>)
    ensures
        forall|t: Seq<char>|
            all_tags(items).contains(t) <==> exists|i: int|
                0 <= i < items.len() && #[trigger] items[i].tag_set().contains(t),
    decreases items.len(),
{
    if items.len() > 0 {
        let pre = items.drop_last();
        lemma_all_tags(pre);
        let a = all_tags(pre);
        let l = items.last().tags;
        assert forall|t: Seq<char>|
            all_tags(items).contains(t) <==> exists|i: int|
                0 <= i < items.len() && #[trigger] items[i].tag_set().contains(t) by {
            if all_tags(items).contains(t) {
                let k = choose|k: int| 0 <= k < a.len() + l.len() && (a + l)[k] == t;
                if k < a.len() {
                    assert(a[k] == t);
                    assert(a.contains(t));
                    let i = choose|i: int| 0 <= i < pre.len() && #[trigger] pre[i].tag_set().contains(t);
                    assert(items[i] == pre[i]);
                    assert(items[i].tag_set().contains(t));
                } else {
                    assert(l[k - a.len()] == t);
                    assert(l.contains(t));
                    assert(items[items.len() - 1].tag_set().contains(t));
                }
            }
            if exists|i: int| 0 <= i < items.len() && #[trigger] items[i].tag_set().contains(t) {
                let i = choose|i: int| 0 <= i < items.len() && #[trigger] items[i].tag_set().contains(t);
                if i < items.len() - 1 {
                    assert(pre[i] == items[i]);
                    assert(pre[i].tag_set().contains(t));
                    assert(a.contains(t));
                    let k = choose|k: int| 0 <= k < a.len() && a[k] == t;
                    assert((a + l)[k] == t);
                    assert(all_tags(items).contains(t));
                } else {
                    assert(l.contains(t));
                    let k = choose|k: int| 0 <= k < l.len() && l[k] == t;
                    assert((a + l)[k + a.len()] == t);
                    assert(all_tags(items).contains(t));
                }
            }
        }
    }
}

proof fn lemma_without_empty(tags: Seq<Seq<char>>)
    ensures
        without(tags, Set::empty()) == tags,
    decreases tags.len(),
{
    if tags.len() > 0 {
        lemma_without_empty(tags.drop_last());
        assert(tags.drop_last().push(tags.last()) =~= tags);
    }
}

/// The tags that `without` keeps are those of `tags` outside `req`.
pub proof fn lemma_without_set(tags: Seq<Seq<char>>, req: Set<Seq<char>>)
    ensures
        without(tags, req).to_set() == tags.to_set().difference(req),
    decreases tags.len(),
{
    if tags.len() > 0 {
        let pre = tags.drop_last();
        lemma_without_set(pre, req);
        lemma_push_contains(pre, tags.last());
        lemma_push_contains(without(pre, req), tags.last());
        assert(pre.push(tags.last()) =~= tags);
        assert(without(tags, req).to_set() =~= tags.to_set().difference(req)) by {
            assert forall|t: Seq<char>| without(tags, req).to_set().contains(t) <==> tags.to_set().difference(req).contains(t) by {
                assert(without(pre, req).to_set().contains(t) <==> without(pre, req).contains(t));
                assert(pre.to_set().contains(t) <==> pre.contains(t));
                assert(tags.contains(t) <==> pre.push(tags.last()).contains(t));
            }
        }
    }
}

/// Filtering by no tag at all keeps every item with all of its tags.
pub proof fn lemma_filter_identity(items: Seq<ItemV>)
    ensures
        filter_items(items, Set::empty()) == items,
    decreases items.len(),
{
    if items.len() > 0 {
        let pre = items.drop_last();
        lemma_filter_identity(pre);
        lemma_without_empty(items.last().tags);
        assert(Set::<Seq<char>>::empty().subset_of(items.last().tag_set()));
        assert(pre.push(items.last()) =~= items);
        assert(filter_items(items, Set::empty()) == pre + seq![items.last()]);
        assert(pre + seq![items.last()] =~= items);
    }
}

/// Filtering keeps only items of the collection whose tags include every
/// required tag, and each kept item has exactly its tags minus the required ones.
pub proof fn lemma_filter_kept(items: Seq<ItemV>, req: Set<Seq<char>>)
    ensures
        forall|i: int|
            0 <= i < filter_items(items, req).len() ==> exists|j: int|
                0 <= j < items.len() && (#[trigger] filter_items(items, req)[i]).name
                    == items[j].name && req.subset_of(items[j].tag_set())
                    && filter_items(items, req)[i].tag_set() == items[j].tag_set().difference(
                    req,
                ),
    decreases items.len(),
{
    if items.len() > 0 {
        let pre = items.drop_last();
        let it = items.last();
        lemma_filter_kept(pre, req);
        lemma_without_set(it.tags, req);
        let r = filter_items(items, req);
        let rp = filter_items(pre, req);
        let kept = ItemV { name: it.name, tags: without(it.tags, req) };
        if req.subset_of(it.tag_set()) {
            assert(r == rp + seq![kept]);
        } else {
            assert(r == rp);
        }
        assert forall|i: int| 0 <= i < r.len() implies exists|j: int|
            0 <= j < items.len() && (#[trigger] r[i]).name == items[j].name && req.subset_of(
                items[j].tag_set(),
            ) && r[i].tag_set() == items[j].tag_set().difference(req) by {
            if i < rp.len() {
                assert(r[i] == rp[i]);
                let j = choose|j: int|
                    0 <= j < pre.len() && (#[trigger] rp[i]).name == pre[j].name && req.subset_of(
                        pre[j].tag_set(),
                    ) && rp[i].tag_set() == pre[j].tag_set().difference(req);
                assert(items[j] == pre[j]);
            } else {
                assert(req.subset_of(it.tag_set()));
                assert(r[i] == kept);
                assert(items[items.len() - 1] == it);
            }
        }
    }
}

/// Whether a listing holds `s`.
pub(crate) fn contains_string(v: &[String], s: &String) -> (r: bool)
    ensures
        r == views_of(v@).contains(s@),
{
    let mut i: usize = 0;
    while i < v.len()
        invariant
            i <= v@.len(),
            forall|k: int| 0 <= k < i ==> v@[k]@ != s@,
        decreases v@.len() - i,
    {
        if v[i] == *s {
            assert(views_of(v@)[i as int] == s@);
            return true;
        }
        i = i + 1;
    }
    assert forall|k: int| 0 <= k < views_of(v@).len() implies views_of(v@)[k] != s@ by {
        assert(views_of(v@)[k] == v@[k]@);
    }
    false
}

/// Copies a listing of strings.
pub(crate) fn copy_strings(v: &[String]) -> (r: Vec<String>)
    ensures
        views_of(r@) == views_of(v@),
{
    let mut r: Vec<String> = Vec::new();
    let mut i: usize = 0;
    while i < v.len()
        invariant
            i <= v@.len(),
            views_of(r@) == views_of(v@).take(i as int),
        decreases v@.len() - i,
    {
        let ghost prev = views_of(r@);
        r.push(v[i].clone());
        assert(views_of(r@) =~= prev.push(v@[i as int]@));
        assert(views_of(r@) =~= views_of(v@).take(i + 1));
        i = i + 1;
    }
    assert(views_of(v@).take(i as int) =~= views_of(v@));
    r
}

impl Elements {
    /// Builds the collection of a directory listing: hidden names are left out
    /// and every other name is parsed, in order. The first visible name off the
    /// convention fails the whole listing.
    pub fn from_names(names: &Vec<String>) -> (r: Result<Elements, TagError>)
        ensures
            r is Ok <==> forall|i: int|
                0 <= i < names@.len() && !is_hidden(#[trigger] names@[i]@) ==> follows_convention(
                    names@[i]@,
                ),
            r matches Ok(c) ==> c@ == visible_items(views_of(names@)),
            r matches Err(e) ==> exists|i: int|
                0 <= i < names@.len() && !is_hidden(#[trigger] names@[i]@) && !follows_convention(
                    names@[i]@,
                ) && (forall|k: int|
                    0 <= k < i && !is_hidden(#[trigger] names@[k]@) ==> follows_convention(
                        names@[k]@,
                    )) && (e matches TagError::InvalidFileName { name: n } && n@ == names@[i]@),
    {
        let ghost ns = views_of(names@);
        let ghost f = |n: Seq<char>| parse_visible(n);
        let mut out: Vec<Element> = Vec::new();
        let mut i: usize = 0;
        while i < names.len()
            invariant
                i <= names@.len(),
                ns == views_of(names@),
                f == (|n: Seq<char>| parse_visible(n)),
                forall|k: int|
                    0 <= k < i && !is_hidden(#[trigger] names@[k]@) ==> follows_convention(
                        names@[k]@,
                    ),
                items_of(out@) == ns.take(i as int).filter_map(f),
            decreases names@.len() - i,
        {
            let name = &names[i];
            proof {
                ns.lemma_filter_map_take_succ(f, i as int);
                assert(ns[i as int] == name@);
            }
            let hidden = name.as_str().unicode_len() > 0 && name.as_str().get_char(0) == '.';
            if !hidden {
                match Element::parse(name.as_str()) {
                    Ok(e) => {
                        out.push(e);
                        assert(items_of(out@) =~= ns.take(i + 1).filter_map(f));
                    },
                    Err(e) => {
                        return Err(e);
                    },
                }
            } else {
                assert(items_of(out@) =~= ns.take(i + 1).filter_map(f));
            }
            i = i + 1;
        }
        assert(ns.take(i as int) =~= ns);
        Ok(Elements(out))
    }

    /// Every distinct tag of the collection, once each, in order of first appearance.
    pub fn tags(&self) -> (r: Vec<String>)
        ensures
            views_of(r@) == distinct_tags(self@),
            views_of(r@).no_duplicates(),
            forall|t: Seq<char>|
                views_of(r@).contains(t) <==> exists|i: int|
                    0 <= i < self@.len() && #[trigger] self@[i].tag_set().contains(t),
    {
        let ghost items = self@;
        let mut out: Vec<String> = Vec::new();
        let mut i: usize = 0;
        assert(items.take(0) =~= Seq::<ItemV>::empty());
        while i < self.0.len()
            invariant
                i <= self.0@.len(),
                items == self@,
                views_of(out@) == dedup(all_tags(items.take(i as int))),
            decreases self.0@.len() - i,
        {
            let el = &self.0[i];
            let ghost before = all_tags(items.take(i as int));
            let ghost ts = views_of(el.tags@);
            proof {
                assert(items[i as int] == el@);
                assert(items.take(i + 1).drop_last() =~= items.take(i as int));
                assert(all_tags(items.take(i + 1)) == before + ts);
                assert(before + ts.take(0) =~= before);
            }
            let mut j: usize = 0;
            while j < el.tags.len()
                invariant
                    j <= el.tags@.len(),
                    ts == views_of(el.tags@),
                    views_of(out@) == dedup(before + ts.take(j as int)),
                decreases el.tags@.len() - j,
            {
                let tag = &el.tags[j];
                proof {
                    assert((before + ts.take(j + 1)).drop_last() =~= before + ts.take(j as int));
                    assert((before + ts.take(j + 1)).last() == tag@);
                }
                if !contains_string(out.as_slice(), tag) {
                    let ghost prev = views_of(out@);
                    out.push(tag.clone());
                    assert(views_of(out@) =~= prev.push(tag@));
                }
                j = j + 1;
            }
            assert(before + ts.take(j as int) =~= before + ts);
            i = i + 1;
        }
        assert(items.take(i as int) =~= items);
        proof {
            lemma_dedup(all_tags(items));
            lemma_all_tags(items);
            assert forall|t: Seq<char>|
                views_of(out@).contains(t) <==> exists|i: int|
                    0 <= i < self@.len() && #[trigger] self@[i].tag_set().contains(t) by {
                assert(views_of(out@).contains(t) <==> all_tags(items).contains(t));
            }
        }
        out
    }

    /// Every file name of the collection, in order.
    pub fn names(&self) -> (r: Vec<String>)
        ensures
            views_of(r@) == names_of(self@),
    {
        let mut out: Vec<String> = Vec::new();
        let mut i: usize = 0;
        while i < self.0.len()
            invariant
                i <= self.0@.len(),
                views_of(out@) == names_of(self@).take(i as int),
            decreases self.0@.len() - i,
        {
            let ghost prev = views_of(out@);
            out.push(self.0[i].name.clone());
            assert(views_of(out@) =~= prev.push(self.0@[i as int].name@));
            assert(views_of(out@) =~= names_of(self@).take(i + 1));
            i = i + 1;
        }
        assert(names_of(self@).take(i as int) =~= names_of(self@));
        out
    }

    /// Keeps the items that carry every tag of `filter` and removes those tags
    /// from what is kept. An empty `filter` keeps the collection as it is.
    pub fn filter(&self, filter: &[String]) -> (r: Elements)
        ensures
            r@ == filter_items(self@, views_of(filter@).to_set()),
    {
        let ghost req = views_of(filter@).to_set();
        let ghost items = self@;
        let mut out: Vec<Element> = Vec::new();
        let mut i: usize = 0;
        while i < self.0.len()
            invariant
                i <= self.0@.len(),
                items == self@,
                req == views_of(filter@).to_set(),
                items_of(out@) == items.take(i as int).filter_map(narrow(req)),
            decreases self.0@.len() - i,
        {
            let el = &self.0[i];
            proof {
                items.lemma_filter_map_take_succ(narrow(req), i as int);
                assert(items[i as int] == el@);
            }
            // does the item carry every required tag?
            let mut all_in = true;
            let mut k: usize = 0;
            while k < filter.len()
                invariant
                    k <= filter@.len(),
                    all_in <==> forall|q: int|
                        0 <= q < k ==> el@.tag_set().contains(#[trigger] views_of(filter@)[q]),
                decreases filter@.len() - k,
            {
                let present = contains_string(el.tags.as_slice(), &filter[k]);
                assert(views_of(filter@)[k as int] == filter@[k as int]@);
                assert(el@.tag_set().contains(filter@[k as int]@) == views_of(el.tags@).contains(
                    filter@[k as int]@,
                ));
                if !present {
                    all_in = false;
                }
                k = k + 1;
            }
            if all_in {
                assert(req.subset_of(el@.tag_set())) by {
                    assert forall|t: Seq<char>| req.contains(t) implies el@.tag_set().contains(t) by {
                        let q = choose|q: int| 0 <= q < views_of(filter@).len() && views_of(filter@)[q] == t;
                    }
                }
                let mut kept: Vec<String> = Vec::new();
                let ghost ts = el@.tags;
                let mut j: usize = 0;
                assert(ts.take(0) =~= Seq::<Seq<char>>::empty());
                while j < el.tags.len()
                    invariant
                        j <= el.tags@.len(),
                        ts == views_of(el.tags@),
                        req == views_of(filter@).to_set(),
                        views_of(kept@) == without(ts.take(j as int), req),
                    decreases el.tags@.len() - j,
                {
                    let tag = &el.tags[j];
                    proof {
                        assert(ts.take(j + 1).drop_last() =~= ts.take(j as int));
                        assert(ts.take(j + 1).last() == tag@);
                    }
                    if !contains_string(filter, tag) {
                        let ghost prev = views_of(kept@);
                        kept.push(tag.clone());
                        assert(views_of(kept@) =~= prev.push(tag@));
                    }
                    j = j + 1;
                }
                assert(ts.take(j as int) =~= ts);
                let ghost prev = items_of(out@);
                out.push(Element { name: el.name.clone(), tags: kept });
                assert(items_of(out@) =~= prev.push(
                    ItemV { name: el@.name, tags: without(el@.tags, req) },
                ));
                assert(items_of(out@) =~= items.take(i + 1).filter_map(narrow(req)));
            } else {
                assert(!req.subset_of(el@.tag_set())) by {
                    let q = choose|q: int|
                        0 <= q < filter@.len() && !el@.tag_set().contains(#[trigger] views_of(filter@)[q]);
                    assert(req.contains(views_of(filter@)[q]));
                }
                assert(items_of(out@) =~= items.take(i + 1).filter_map(narrow(req)));
            }
            i = i + 1;
        }
        assert(items.take(i as int) =~= items);
        Elements(out)
    }
}

} // verus!
