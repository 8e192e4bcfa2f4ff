//! The projection engine: the folders and links that make up the tag tree.
//!
//! A folder is named by its tag path, the tags chosen from the projection root
//! down to it. The engine does not touch the disk: it yields the steps, in the
//! order they are to be performed, and the caller performs each step whose
//! destination does not exist yet.
use vstd::prelude::*;
use crate::name::{ItemV, views_of};
use crate::collection::{Elements, filter_items, distinct_tags, name_set, names_of, copy_strings, contains_string};

verus! {

/// A step of the projection, as a value.
pub enum StepV {
    /// Create the folder at this tag path.
    Dir(Seq<Seq<char>>),
    /// Link the named file into the folder at this tag path.
    Link(Seq<Seq<char>>, Seq<char>),
}

/// A step of the projection.
#[derive(Debug, PartialEq, Eq)]
pub enum Step {
    /// Create the folder `Tags/<path...>`.
    CreateDir { path: Vec<String> },
    /// Create `Tags/<dir...>/<name>` as a link to `Files/<name>`.
    Link { dir: Vec<String>, name: String },
}

impl View for Step {
    type V = StepV;

    open spec fn view(&self) -> StepV {
        match self {
            Step::CreateDir { path } => StepV::Dir(views_of(path@)),
            Step::Link { dir, name } => StepV::Link(views_of(dir@), name@),
        }
    }
}

pub open spec fn steps_of(v: Seq<Step>) -> Seq<StepV> {
    v.map_values(|s: Step| s@)
}

/// The folder a step works in: the folder it creates, or the one it links into.
pub open spec fn step_dir(s: StepV) -> Seq<Seq<char>> {
    match s {
        StepV::Dir(p) => p,
        StepV::Link(p, _) => p,
    }
}

/// The entry a step creates below `Tags/`, as a path of names.
pub open spec fn destination(s: StepV) -> Seq<Seq<char>> {
    match s {
        StepV::Dir(p) => p,
        StepV::Link(p, n) => p.push(n),
    }
}

/// The items seen in the folder at `path`: those carrying every tag of the
/// path, each without those tags.
pub open spec fn view_at(root: Seq<ItemV>, path: Seq<Seq<char>>) -> Seq<ItemV> {
    filter_items(root, path.to_set())
}

/// Narrowing `v` to the items tagged `t` leaves out at least one file.
pub open spec fn discriminates(v: Seq<ItemV>, t: Seq<char>) -> bool {
    name_set(v) != name_set(filter_items(v, set![t]))
}

/// A child folder for `t` is opened below `path`: always at the root, and
/// deeper only when `t` tells the files there apart.
pub open spec fn opens_folder(root: Seq<ItemV>, path: Seq<Seq<char>>, t: Seq<char>) -> bool {
    path.len() == 0 || discriminates(view_at(root, path), t)
}

/// One link per item of `v`, into the folder at `path`.
pub open spec fn links_at(v: Seq<ItemV>, path: Seq<Seq<char>>) -> Seq<StepV> {
    names_of(v).map_values(|n: Seq<char>| StepV::Link(path, n))
}

/// The steps for the folder at `path` and everything below it: links to its
/// files (none at the root), then, while the path has fewer than three tags,
/// each child folder worth opening, followed by its own steps.
pub open spec fn plan_at(root: Seq<ItemV>, path: Seq<Seq<char>>) -> Seq<StepV>
    decreases 3 - path.len(), 1int, 0int,
{
    let v = view_at(root, path);
    let links = if path.len() == 0 {
        Seq::empty()
    } else {
        links_at(v, path)
    };
    if path.len() > 2 {
        links
    } else {
        links + plan_children(root, path, distinct_tags(v))
    }
}

/// The steps for the child folders of `path` named by the tags `ts`, in order.
pub open spec fn plan_children(
    root: Seq<ItemV>,
    path: Seq<Seq<char>>,
    ts: Seq<Seq<char>>,
) -> Seq<StepV>
    decreases 3 - path.len(), 0int, ts.len(),
{
    if path.len() > 2 || ts.len() == 0 {
        Seq::empty()
    } else {
        let t = ts.last();
        let rest = plan_children(root, path, ts.drop_last());
        if opens_folder(root, path, t) {
            rest + seq![StepV::Dir(path.push(t))] + plan_at(root, path.push(t))
        } else {
            rest
        }
    }
}

/// The whole projection of a collection.
pub open spec fn projection_plan(root: Seq<ItemV>) -> Seq<StepV> {
    plan_at(root, Seq::empty())
}

/// Whether two listings hold the same set of names.
fn same_names(a: &Vec<String>, b: &Vec<String>) -> (r: bool)
    ensures
        r == (views_of(a@).to_set() == views_of(b@).to_set()),
{
    let mut i: usize = 0;
    while i < a.len()
        invariant
            i <= a@.len(),
            forall|k: int| 0 <= k < i ==> views_of(b@).contains(#[trigger] views_of(a@)[k]),
        decreases a@.len() - i,
    {
        if !contains_string(b.as_slice(), &a[i]) {
            assert(views_of(a@).to_set().contains(views_of(a@)[i as int]));
            return false;
        }
        i = i + 1;
    }
    let mut j: usize = 0;
    while j < b.len()
        invariant
            j <= b@.len(),
            forall|k: int| 0 <= k < a@.len() ==> views_of(b@).contains(#[trigger] views_of(a@)[k]),
            forall|k: int| 0 <= k < j ==> views_of(a@).contains(#[trigger] views_of(b@)[k]),
        decreases b@.len() - j,
    {
        if !contains_string(a.as_slice(), &b[j]) {
            assert(views_of(b@).to_set().contains(views_of(b@)[j as int]));
            return false;
        }
        j = j + 1;
    }
    assert(views_of(a@).to_set() =~= views_of(b@).to_set()) by {
        assert forall|t: Seq<char>| views_of(a@).contains(t) implies views_of(b@).contains(t) by {
            let k = choose|k: int| 0 <= k < views_of(a@).len() && views_of(a@)[k] == t;
        }
        assert forall|t: Seq<char>| views_of(b@).contains(t) implies views_of(a@).contains(t) by {
            let k = choose|k: int| 0 <= k < views_of(b@).len() && views_of(b@)[k] == t;
        }
    }
    true
}

impl Step {
    /// The entry this step creates below `Tags/`, as a path of names.
    pub fn destination(&self) -> (r: Vec<String>)
        ensures
            views_of(r@) == destination(self@),
    {
        match self {
            Step::CreateDir { path } => copy_strings(path.as_slice()),
            Step::Link { dir, name } => {
                let mut r = copy_strings(dir.as_slice());
                let ghost prev = views_of(r@);
                r.push(name.clone());
                assert(views_of(r@) =~= prev.push(name@));
                r
            },
        }
    }
}

impl Elements {
    /// Appends the steps for the folder at `path` and everything below it:
    /// links to the files seen there (none at the root) and, while the path is
    /// shorter than three tags, each child folder worth opening, followed by
    /// its own steps.
    pub fn creates_dirs_and_refs(&self, path: &Vec<String>, steps: &mut Vec<Step>)
        ensures
            steps_of(final(steps)@) == steps_of(old(steps)@) + plan_at(self@, views_of(path@)),
        decreases 3 - path@.len(),
    {
        let ghost root = self@;
        let ghost pv = views_of(path@);
        let ghost start = steps_of(steps@);
        let view = self.filter(path.as_slice());
        let first_level = path.len() == 0;
        let ghost links = if pv.len() == 0 {
            Seq::<StepV>::empty()
        } else {
            links_at(view@, pv)
        };
        if !first_level {
            let mut i: usize = 0;
            assert(links.take(0) =~= Seq::<StepV>::empty());
            assert(start + links.take(0) =~= start);
            while i < view.0.len()
                invariant
                    i <= view.0@.len(),
                    pv == views_of(path@),
                    pv.len() > 0,
                    links == links_at(view@, pv),
                    steps_of(steps@) == start + links.take(i as int),
                decreases view.0@.len() - i,
            {
                let ghost prev = steps_of(steps@);
                let step = Step::Link { dir: copy_strings(path.as_slice()), name: view.0[i].name.clone() };
                steps.push(step);
                assert(steps_of(steps@) =~= prev.push(links[i as int]));
                assert(start + links.take(i + 1) =~= prev.push(links[i as int]));
                i = i + 1;
            }
            assert(links.take(i as int) =~= links);
        } else {
            assert(start + links =~= start);
        }
        if path.len() > 2 {
            return;
        }
        let tags = view.tags();
        let names = view.names();
        let ghost tv = views_of(tags@);
        assert(tv.take(0) =~= Seq::<Seq<char>>::empty());
        assert(start + links + Seq::<StepV>::empty() =~= start + links);
        let mut k: usize = 0;
        while k < tags.len()
            invariant
                k <= tags@.len(),
                root == self@,
                pv == views_of(path@),
                pv.len() <= 2,
                first_level == (pv.len() == 0),
                view@ == view_at(root, pv),
                tv == views_of(tags@),
                tv == distinct_tags(view@),
                views_of(names@) == names_of(view@),
                steps_of(steps@) == start + links + plan_children(root, pv, tv.take(k as int)),
            decreases tags@.len() - k,
        {
            let tag = &tags[k];
            proof {
                assert(tv.take(k + 1).drop_last() =~= tv.take(k as int));
                assert(tv.take(k + 1).last() == tag@);
            }
            let mut open = first_level;
            if !first_level {
                let mut single: Vec<String> = Vec::new();
                single.push(tag.clone());
                assert(views_of(single@).to_set() =~= set![tag@]) by {
                    assert(views_of(single@)[0] == tag@);
                }
                let narrower = view.filter(single.as_slice()).names();
                open = !same_names(&names, &narrower);
            }
            if open {
                let mut child = copy_strings(path.as_slice());
                let ghost prev = views_of(child@);
                child.push(tag.clone());
                assert(views_of(child@) =~= prev.push(tag@));
                let ghost before = steps_of(steps@);
                steps.push(Step::CreateDir { path: copy_strings(child.as_slice()) });
                assert(steps_of(steps@) =~= before.push(StepV::Dir(pv.push(tag@))));
                self.creates_dirs_and_refs(&child, steps);
                assert(steps_of(steps@) =~= start + links + plan_children(root, pv, tv.take(k + 1)));
            }
            k = k + 1;
        }
        assert(tv.take(k as int) =~= tv);
    }

    /// Every step of the projection, in the order they are to be performed.
    pub fn projection(&self) -> (r: Vec<Step>)
        ensures
            steps_of(r@) == projection_plan(self@),
    {
        let mut steps: Vec<Step> = Vec::new();
        let root: Vec<String> = Vec::new();
        assert(views_of(root@) =~= Seq::<Seq<char>>::empty());
        self.creates_dirs_and_refs(&root, &mut steps);
        assert(steps_of(steps@) =~= projection_plan(self@));
        steps
    }
}

/// Every step of `s` works in a folder one to three tags deep, no shallower
/// than `lo`, and every folder it opens below the first level tells the files
/// of its parent folder apart.
pub open spec fn well_shaped(root: Seq<ItemV>, s: Seq<StepV>, lo: int) -> bool {
    forall|i: int|
        0 <= i < s.len() ==> {
            let d = step_dir(#[trigger] s[i]);
            &&& 1 <= d.len() <= 3
            &&& lo <= d.len()
            &&& s[i] is Dir && d.len() > 1 ==> discriminates(view_at(root, d.drop_last()), d.last())
        }
}

proof fn lemma_well_shaped_concat(root: Seq<ItemV>, a: Seq<StepV>, b: Seq<StepV>, lo: int)
    requires
        well_shaped(root, a, lo),
        well_shaped(root, b, lo),
    ensures
        well_shaped(root, a + b, lo),
{
    assert forall|i: int| 0 <= i < (a + b).len() implies {
        let d = step_dir(#[trigger] (a + b)[i]);
        &&& 1 <= d.len() <= 3
        &&& lo <= d.len()
        &&& (a + b)[i] is Dir && d.len() > 1 ==> discriminates(view_at(root, d.drop_last()), d.last())
    } by {
        if i < a.len() {
            assert((a + b)[i] == a[i]);
        } else {
            assert((a + b)[i] == b[i - a.len()]);
        }
    }
}

proof fn lemma_plan_shape(root: Seq<ItemV>, path: Seq<Seq<char>>)
    requires
        path.len() <= 3,
    ensures
        well_shaped(root, plan_at(root, path), path.len() as int),
    decreases 3 - path.len(), 1int, 0int,
{
    let v = view_at(root, path);
    let links = if path.len() == 0 {
        Seq::empty()
    } else {
        links_at(v, path)
    };
    assert forall|i: int| 0 <= i < links.len() implies step_dir(#[trigger] links[i]) == path
        && !(links[i] is Dir) && path.len() >= 1 by {}
    assert(well_shaped(root, links, path.len() as int));
    if path.len() <= 2 {
        lemma_children_shape(root, path, distinct_tags(v));
        lemma_well_shaped_concat(root, links, plan_children(root, path, distinct_tags(v)), path.len() as int);
    }
}

proof fn lemma_children_shape(root: Seq<ItemV>, path: Seq<Seq<char>>, ts: Seq<Seq<char>>)
    requires
        path.len() <= 3,
    ensures
        well_shaped(root, plan_children(root, path, ts), (path.len() + 1) as int),
    decreases 3 - path.len(), 0int, ts.len(),
{
    if path.len() <= 2 && ts.len() > 0 {
        let t = ts.last();
        let q = path.push(t);
        lemma_children_shape(root, path, ts.drop_last());
        if opens_folder(root, path, t) {
            lemma_plan_shape(root, q);
            let d = seq![StepV::Dir(q)];
            assert(q.drop_last() =~= path);
            assert(step_dir(d[0]) == q);
            assert(well_shaped(root, d, (path.len() + 1) as int));
            let rest = plan_children(root, path, ts.drop_last());
            lemma_well_shaped_concat(root, rest, d, (path.len() + 1) as int);
            lemma_well_shaped_concat(root, rest + d, plan_at(root, q), (path.len() + 1) as int);
        }
    }
}

/// No folder of the projection lies more than three tags below the root, and
/// every step works inside some folder (never in the root itself).
pub proof fn lemma_depth_bound(root: Seq<ItemV>)
    ensures
        forall|i: int|
            0 <= i < projection_plan(root).len() ==> 1 <= step_dir(
                #[trigger] projection_plan(root)[i],
            ).len() <= 3,
{
    lemma_plan_shape(root, Seq::empty());
}

proof fn lemma_filter_all_carry(v: Seq<ItemV>, t: Seq<char>)
    requires
        forall|i: int| 0 <= i < v.len() ==> (#[trigger] v[i]).tag_set().contains(t),
    ensures
        names_of(filter_items(v, set![t])) == names_of(v),
    decreases v.len(),
{
    if v.len() > 0 {
        let pre = v.drop_last();
        assert forall|i: int| 0 <= i < pre.len() implies (#[trigger] pre[i]).tag_set().contains(t) by {
            assert(pre[i] == v[i]);
        }
        lemma_filter_all_carry(pre, t);
        assert(v[v.len() - 1].tag_set().contains(t));
        assert(set![t].subset_of(v.last().tag_set()));
        let it = v.last();
        let kept = ItemV { name: it.name, tags: crate::collection::without(it.tags, set![t]) };
        assert(filter_items(v, set![t]) == filter_items(pre, set![t]) + seq![kept]);
        assert(names_of(filter_items(v, set![t])) =~= names_of(filter_items(pre, set![t])).push(it.name));
        assert(names_of(v) =~= names_of(pre).push(it.name));
    }
}

/// Below the root, a tag that every file of a folder carries opens no
/// subfolder there.
pub proof fn lemma_redundant_folder_suppressed(root: Seq<ItemV>, p: Seq<Seq<char>>, t: Seq<char>)
    requires
        p.len() >= 1,
        forall|i: int|
            0 <= i < view_at(root, p).len() ==> (#[trigger] view_at(root, p)[i]).tag_set().contains(t),
    ensures
        !projection_plan(root).contains(StepV::Dir(p.push(t))),
{
    lemma_plan_shape(root, Seq::empty());
    lemma_filter_all_carry(view_at(root, p), t);
    let plan = projection_plan(root);
    if plan.contains(StepV::Dir(p.push(t))) {
        let i = choose|i: int| 0 <= i < plan.len() && plan[i] == StepV::Dir(p.push(t));
        assert(step_dir(plan[i]) == p.push(t));
        assert(p.push(t).drop_last() =~= p);
        assert(discriminates(view_at(root, p), t));
    }
}

/// The entries below `Tags/` after performing `steps` over the entries of
/// `tree`: each step creates its destination unless it is there already.
pub open spec fn apply_steps(tree: Set<Seq<Seq<char>>>, steps: Seq<StepV>) -> Set<Seq<Seq<char>>>
    decreases steps.len(),
{
    if steps.len() == 0 {
        tree
    } else {
        apply_steps(tree, steps.drop_last()).insert(destination(steps.last()))
    }
}

proof fn lemma_apply_steps(tree: Set<Seq<Seq<char>>>, steps: Seq<StepV>)
    ensures
        tree.subset_of(apply_steps(tree, steps)),
        forall|i: int|
            0 <= i < steps.len() ==> apply_steps(tree, steps).contains(
                destination(#[trigger] steps[i]),
            ),
        (forall|i: int| 0 <= i < steps.len() ==> tree.contains(destination(#[trigger] steps[i])))
            ==> apply_steps(tree, steps) == tree,
    decreases steps.len(),
{
    if steps.len() > 0 {
        let pre = steps.drop_last();
        lemma_apply_steps(tree, pre);
        assert forall|i: int| 0 <= i < steps.len() implies apply_steps(tree, steps).contains(
            destination(#[trigger] steps[i]),
        ) by {
            if i < pre.len() {
                assert(pre[i] == steps[i]);
            }
        }
        if forall|i: int| 0 <= i < steps.len() ==> tree.contains(destination(#[trigger] steps[i])) {
            assert forall|i: int| 0 <= i < pre.len() implies tree.contains(
                destination(#[trigger] pre[i]),
            ) by {
                assert(pre[i] == steps[i]);
            }
            assert(tree.contains(destination(steps[steps.len() - 1])));
            assert(apply_steps(tree, steps) =~= tree);
        }
    }
}

/// The projection depends on the collection alone, and a second run over an
/// unchanged collection finds every entry in place: it creates nothing and
/// leaves the tree as the first run left it.
pub proof fn lemma_rerun_idempotent(root: Seq<ItemV>, tree: Set<Seq<Seq<char>>>)
    ensures
        forall|i: int|
            0 <= i < projection_plan(root).len() ==> apply_steps(tree, projection_plan(root)).contains(
                destination(#[trigger] projection_plan(root)[i]),
            ),
        apply_steps(apply_steps(tree, projection_plan(root)), projection_plan(root)) == apply_steps(
            tree,
            projection_plan(root),
        ),
{
    let plan = projection_plan(root);
    lemma_apply_steps(tree, plan);
    lemma_apply_steps(apply_steps(tree, plan), plan);
}

} // verus!
