//! The persisted application model: websites, their session-isolated
//! instances, and the schema envelope the store is written in.

use std::collections::HashMap;

use vstd::prelude::*;

use crate::text::opt_view;
use vstd::std_specs::iter::IteratorSpec;

verus! {

/// Version of the persisted store layout that this library reads and writes.
pub const SCHEMA_VERSION: u32 = 1;

/// A website the user added: a registered domain with a tree of instances.
#[derive(Debug)]
pub struct Website {
    pub id: u128,
    pub url_root: String,
    pub display_title: String,
    pub root_instance_ids: Vec<u128>,
    pub active_instance_id: Option<u128>,
    pub created_at_ms: i64,
}

/// The mathematical value of a [`Website`].
#[verifier::ext_equal]
pub struct WebsiteView {
    pub id: u128,
    pub url_root: Seq<char>,
    pub display_title: Seq<char>,
    pub root_instance_ids: Seq<u128>,
    pub active_instance_id: Option<u128>,
    pub created_at_ms: i64,
}

impl View for Website {
    type V = WebsiteView;

    open spec fn view(&self) -> WebsiteView {
        WebsiteView {
            id: self.id,
            url_root: self.url_root@,
            display_title: self.display_title@,
            root_instance_ids: self.root_instance_ids@,
            active_instance_id: self.active_instance_id,
            created_at_ms: self.created_at_ms,
        }
    }
}

impl Clone for Website {
    fn clone(&self) -> (r: Self)
        ensures
            r@ == self@,
    {
        let roots = self.root_instance_ids.clone();
        proof {
            assert(roots@ =~= self.root_instance_ids@);
        }
        Website {
            id: self.id,
            url_root: self.url_root.clone(),
            display_title: self.display_title.clone(),
            root_instance_ids: roots,
            active_instance_id: self.active_instance_id,
            created_at_ms: self.created_at_ms,
        }
    }
}

/// One session-isolated identity on a website; forks have a parent.
#[derive(Debug)]
pub struct Instance {
    pub id: u128,
    pub website_id: u128,
    pub parent_instance_id: Option<u128>,
    pub user_name: Option<String>,
    pub page_title: Option<String>,
    pub current_url: String,
    pub created_at_ms: i64,
    /// Optional emoji or short string shown before the name.
    pub icon: Option<String>,
}

/// The mathematical value of an [`Instance`].
#[verifier::ext_equal]
pub struct InstanceView {
    pub id: u128,
    pub website_id: u128,
    pub parent_instance_id: Option<u128>,
    pub user_name: Option<Seq<char>>,
    pub page_title: Option<Seq<char>>,
    pub current_url: Seq<char>,
    pub created_at_ms: i64,
    pub icon: Option<Seq<char>>,
}

impl View for Instance {
    type V = InstanceView;

    open spec fn view(&self) -> InstanceView {
        InstanceView {
            id: self.id,
            website_id: self.website_id,
            parent_instance_id: self.parent_instance_id,
            user_name: opt_view(self.user_name),
            page_title: opt_view(self.page_title),
            current_url: self.current_url@,
            created_at_ms: self.created_at_ms,
            icon: opt_view(self.icon),
        }
    }
}

/// A copy of an optional string with the same view.
pub fn clone_opt_string(o: &Option<String>) -> (r: Option<String>)
    ensures
        opt_view(r) == opt_view(*o),
{
    match o {
        Some(s) => Some(s.clone()),
        None => None,
    }
}

impl Clone for Instance {
    fn clone(&self) -> (r: Self)
        ensures
            r@ == self@,
    {
        Instance {
            id: self.id,
            website_id: self.website_id,
            parent_instance_id: self.parent_instance_id,
            user_name: clone_opt_string(&self.user_name),
            page_title: clone_opt_string(&self.page_title),
            current_url: self.current_url.clone(),
            created_at_ms: self.created_at_ms,
            icon: clone_opt_string(&self.icon),
        }
    }
}

/// The whole application state: websites in tab order, all instances by
/// id, and the website whose tab is active.
#[derive(Debug)]
pub struct AppState {
    pub websites: Vec<Website>,
    pub instances: HashMap<u128, Instance>,
    pub active_website_id: Option<u128>,
}

/// The mathematical value of an [`AppState`].
#[verifier::ext_equal]
pub struct AppStateView {
    pub websites: Seq<WebsiteView>,
    pub instances: Map<u128, InstanceView>,
    pub active_website_id: Option<u128>,
}

/// The views of a sequence of websites.
pub open spec fn websites_view(ws: Seq<Website>) -> Seq<WebsiteView> {
    ws.map_values(|w: Website| w@)
}

/// The views of a map of instances.
pub open spec fn instances_view(m: Map<u128, Instance>) -> Map<u128, InstanceView> {
    m.map_values(|i: Instance| i@)
}

impl View for AppState {
    type V = AppStateView;

    open spec fn view(&self) -> AppStateView {
        AppStateView {
            websites: websites_view(self.websites@),
            instances: instances_view(self.instances@),
            active_website_id: self.active_website_id,
        }
    }
}

impl AppState {
    /// The empty state: no websites, no instances, nothing active.
    pub fn new() -> (r: Self)
        ensures
            r@.websites.len() == 0,
            r@.instances == Map::<u128, InstanceView>::empty(),
            r@.active_website_id is None,
    {
        let r = AppState { websites: Vec::new(), instances: HashMap::new(), active_website_id: None };
        proof {
            assert(r@.instances =~= Map::<u128, InstanceView>::empty());
        }
        r
    }
}

impl Clone for AppState {
    fn clone(&self) -> (r: Self)
        ensures
            r@ == self@,
    {
        let websites = self.websites.clone();
        proof {
            assert forall|i: int| 0 <= i < websites@.len() implies websites@[i]@ == self.websites@[i]@ by {
                assert(cloned::<Website>(self.websites@[i], websites@[i]));
            }
            assert(websites_view(websites@) =~= websites_view(self.websites@));
        }
        AppState { websites, instances: self.instances.clone(), active_website_id: self.active_website_id }
    }
}

impl Default for AppState {
    fn default() -> (r: Self)
        ensures
            r@.websites.len() == 0,
            r@.instances == Map::<u128, InstanceView>::empty(),
            r@.active_website_id is None,
    {
        AppState::new()
    }
}

} // verus!

verus! {

/// The ids of all instances, each once, in the map's iteration order.
pub fn instance_ids(m: &HashMap<u128, Instance>) -> (r: Vec<u128>)
    ensures
        r@.to_set() == m@.dom(),
        r@.no_duplicates(),
        r@.len() == m@.dom().len(),
{
    broadcast use vstd::std_specs::hash::group_hash_axioms;
    let mut ids: Vec<u128> = Vec::new();
    let ghost target = vstd::std_specs::hash::spec_keys_iter(m).remaining().unref();
    for k in it: m.keys()
        invariant
            ids@ == it.history().unref(),
            target == it.seq().unref(),
    {
        ids.push(*k);
    }
    proof {
        assert(ids@ =~= target);
    }
    ids
}

} // verus!

verus! {

/// The persisted envelope: the layout version and the state.
#[derive(Debug)]
pub struct StoreSchema {
    pub version: u32,
    pub app: AppState,
}

impl StoreSchema {
    /// The envelope for `app` at the current layout version.
    pub fn current(app: AppState) -> (r: Self)
        ensures
            r.version == SCHEMA_VERSION,
            r.app@ == app@,
    {
        StoreSchema { version: SCHEMA_VERSION, app }
    }
}

/// Declares `serde_json::Error`, the error of a store that is not JSON of
/// the expected shape.
#[verifier::external_type_specification]
#[verifier::external_body]
pub struct ExJsonError(serde_json::Error);

/// Why a persisted store could not be read.
#[derive(Debug)]
pub enum ModelError {
    IncompatibleVersion { found: u32, supported: u32 },
    Json(serde_json::Error),
}

/// Accept a parsed store envelope: its state when the layout version is
/// the current one. A store that did not parse keeps its parse error.
pub fn deserialize(parsed: Result<StoreSchema, serde_json::Error>) -> (r: Result<AppState, ModelError>)
    ensures
        match parsed {
            Err(e) => r matches Err(ModelError::Json(x)) && x == e,
            Ok(schema) => if schema.version == SCHEMA_VERSION {
                r matches Ok(app) && app@ == schema.app@
            } else {
                r matches Err(ModelError::IncompatibleVersion { found, supported })
                    && found == schema.version && supported == SCHEMA_VERSION
            },
        },
{
    let schema = match parsed {
        Ok(s) => s,
        Err(e) => {
            return Err(ModelError::Json(e));
        },
    };
    if schema.version != SCHEMA_VERSION {
        return Err(ModelError::IncompatibleVersion { found: schema.version, supported: SCHEMA_VERSION });
    }
    Ok(schema.app)
}

} // verus!

verus! {

/// An instance with the subtrees of its children, as shown in the sidebar.
#[derive(Debug)]
pub struct InstanceTreeNode {
    pub instance: Instance,
    pub children: Vec<InstanceTreeNode>,
}

/// The mathematical value of an [`InstanceTreeNode`].
pub struct InstanceTreeNodeView {
    pub instance: InstanceView,
    pub children: Seq<InstanceTreeNodeView>,
}

/// The view of a tree node, children included.
pub open spec fn node_view(n: InstanceTreeNode) -> InstanceTreeNodeView
    decreases n,
{
    InstanceTreeNodeView {
        instance: n.instance@,
        children: Seq::new(
            n.children@.len(),
            |i: int|
                if 0 <= i < n.children@.len() {
                    node_view(n.children@[i])
                } else {
                    arbitrary()
                },
        ),
    }
}

impl View for InstanceTreeNode {
    type V = InstanceTreeNodeView;

    open spec fn view(&self) -> InstanceTreeNodeView {
        node_view(*self)
    }
}

/// `e` lists every instance key of `m` exactly once.
pub open spec fn enumerates(e: Seq<u128>, m: Map<u128, InstanceView>) -> bool {
    e.no_duplicates() && e.to_set() == m.dom()
}

/// Selects, by key, the instances of website `wid` whose parent is `p`.
pub open spec fn child_of(m: Map<u128, InstanceView>, wid: u128, p: u128) -> spec_fn(u128) -> bool {
    |k: u128| m.contains_key(k) && m[k].website_id == wid && m[k].parent_instance_id == Some(p)
}

/// The ids recorded by the instances of website `wid` whose parent is `p`,
/// taken over the enumeration `e` of the keys, keeping only ids that are
/// present.
pub open spec fn listed_children(m: Map<u128, InstanceView>, wid: u128, p: u128, e: Seq<u128>) -> Seq<u128> {
    e.filter(child_of(m, wid, p)).map_values(|k: u128| m[k].id).filter(|c: u128| m.contains_key(c))
}

/// The keys are present and in nondecreasing order of creation time.
pub open spec fn sorted_by_creation(m: Map<u128, InstanceView>, ks: Seq<u128>) -> bool {
    &&& forall|i: int| 0 <= i < ks.len() ==> m.contains_key(#[trigger] ks[i])
    &&& forall|i: int, j: int| 0 <= i < j < ks.len() ==> m[#[trigger] ks[i]].created_at_ms <= m[#[trigger] ks[j]].created_at_ms
}

/// `ks` are the children of `p` in website `wid`, oldest first: the listed
/// children (each as often as it is listed) in order of creation.
pub open spec fn children_keys(m: Map<u128, InstanceView>, wid: u128, p: u128, ks: Seq<u128>) -> bool {
    &&& sorted_by_creation(m, ks)
    &&& exists|e: Seq<u128>| enumerates(e, m) && #[trigger] ks.to_multiset() == listed_children(m, wid, p, e).to_multiset()
}

/// `n` is the subtree of website `wid` rooted at key `c`: it holds instance
/// `c`, and its children are the subtrees of `c`'s children, oldest first.
pub open spec fn subtree(n: InstanceTreeNodeView, m: Map<u128, InstanceView>, wid: u128, c: u128) -> bool
    decreases n,
{
    &&& m.contains_key(c)
    &&& n.instance == m[c]
    &&& exists|ks: Seq<u128>|
        #![trigger children_keys(m, wid, c, ks)]
        {
            &&& ks.len() == n.children.len()
            &&& children_keys(m, wid, c, ks)
            &&& forall|i: int| 0 <= i < ks.len() ==> subtree(n.children[i], m, wid, ks[i])
        }
}

} // verus!

verus! {

broadcast use {vstd::std_specs::hash::group_hash_axioms, vstd::seq_lib::group_filter_ensures};

/// The listed children of `p` in website `wid`, over the enumeration `all`.
fn listed_child_ids(m: &HashMap<u128, Instance>, all: &Vec<u128>, wid: u128, p: u128) -> (r: Vec<u128>)
    ensures
        r@ == listed_children(instances_view(m@), wid, p, all@),
{
    let ghost mv = instances_view(m@);
    let ghost sel = child_of(mv, wid, p);
    let ghost idf = |k: u128| mv[k].id;
    let ghost present = |c: u128| mv.contains_key(c);
    let mut out: Vec<u128> = Vec::new();
    let mut t: usize = 0;
    while t < all.len()
        invariant
            t <= all@.len(),
            mv == instances_view(m@),
            sel == child_of(mv, wid, p),
            idf == (|k: u128| mv[k].id),
            present == (|c: u128| mv.contains_key(c)),
            out@ == all@.take(t as int).filter(sel).map_values(idf).filter(present),
        decreases all@.len() - t,
    {
        let k = all[t];
        proof {
            assert(all@.take(t + 1) =~= all@.take(t as int).push(k));
            all@.take(t as int).lemma_filter_push(k, sel);
            let f1 = all@.take(t as int).filter(sel);
            f1.lemma_push_map_commute(idf, k);
            f1.map_values(idf).lemma_filter_push(idf(k), present);
        }
        match m.get(&k) {
            Some(inst) => {
                if inst.website_id == wid && inst.parent_instance_id == Some(p) {
                    let c = inst.id;
                    if m.contains_key(&c) {
                        out.push(c);
                    }
                }
            },
            None => {},
        }
        t = t + 1;
    }
    proof {
        assert(all@.take(all@.len() as int) =~= all@);
    }
    out
}

} // verus!

verus! {

/// Creation time of a present instance.
fn created_of(m: &HashMap<u128, Instance>, k: u128) -> (r: i64)
    requires
        m@.contains_key(k),
    ensures
        r == instances_view(m@)[k].created_at_ms,
{
    match m.get(&k) {
        Some(inst) => inst.created_at_ms,
        None => 0,
    }
}

/// The ids of `v` (all present in `m`) reordered by creation time, oldest
/// first.
fn sort_by_creation(m: &HashMap<u128, Instance>, v: Vec<u128>) -> (r: Vec<u128>)
    requires
        forall|i: int| 0 <= i < v@.len() ==> m@.contains_key(#[trigger] v@[i]),
    ensures
        sorted_by_creation(instances_view(m@), r@),
        r@.to_multiset() == v@.to_multiset(),
{
    broadcast use {vstd::multiset::group_multiset_axioms, vstd::seq_lib::group_to_multiset_ensures};
    let ghost mv = instances_view(m@);
    let ghost orig = v@;
    let mut work = v;
    let mut out: Vec<u128> = Vec::new();
    while work.len() > 0
        invariant
            mv == instances_view(m@),
            out@.to_multiset().add(work@.to_multiset()) == orig.to_multiset(),
            forall|i: int| 0 <= i < work@.len() ==> m@.contains_key(#[trigger] work@[i]),
            sorted_by_creation(mv, out@),
            forall|i: int, j: int| 0 <= i < out@.len() && 0 <= j < work@.len()
                ==> mv[#[trigger] out@[i]].created_at_ms <= mv[#[trigger] work@[j]].created_at_ms,
        decreases work@.len(),
    {
        let mut mi: usize = 0;
        let mut best = created_of(m, work[0]);
        let mut j: usize = 1;
        while j < work.len()
            invariant
                mv == instances_view(m@),
                forall|i: int| 0 <= i < work@.len() ==> m@.contains_key(#[trigger] work@[i]),
                mi < work@.len(),
                1 <= j <= work@.len(),
                best == mv[work@[mi as int]].created_at_ms,
                forall|i: int| 0 <= i < j ==> best <= mv[#[trigger] work@[i]].created_at_ms,
            decreases work@.len() - j,
        {
            let c = created_of(m, work[j]);
            if c < best {
                best = c;
                mi = j;
            }
            j = j + 1;
        }
        let ghost w0 = work@;
        let ghost o0 = out@;
        let x = work.remove(mi);
        out.push(x);
        proof {
            assert(work@ =~= w0.remove(mi as int));
            assert(out@ == o0.push(x));
            w0.to_multiset_ensures();
            o0.to_multiset_ensures();
            assert(work@.to_multiset() =~= w0.to_multiset().remove(x));
            assert(out@.to_multiset() =~= o0.to_multiset().insert(x));
            assert(w0.to_multiset().count(x) > 0) by {
                assert(w0.contains(x));
            }
            assert(out@.to_multiset().add(work@.to_multiset()) =~= o0.to_multiset().add(w0.to_multiset()));
            assert forall|i: int| 0 <= i < work@.len() implies m@.contains_key(#[trigger] work@[i]) by {
                if i < mi {
                    assert(work@[i] == w0[i]);
                } else {
                    assert(work@[i] == w0[i + 1]);
                }
            }
            assert forall|i: int, k: int| 0 <= i < out@.len() && 0 <= k < work@.len()
                implies mv[#[trigger] out@[i]].created_at_ms <= mv[#[trigger] work@[k]].created_at_ms by {
                let wk = if k < mi { k } else { k + 1 };
                assert(work@[k] == w0[wk]);
                if i < o0.len() {
                    assert(out@[i] == o0[i]);
                } else {
                    assert(out@[i] == x);
                }
            }
            assert forall|a: int, b: int| 0 <= a < b < out@.len()
                implies mv[#[trigger] out@[a]].created_at_ms <= mv[#[trigger] out@[b]].created_at_ms by {
                if b < o0.len() {
                    assert(out@[a] == o0[a]);
                    assert(out@[b] == o0[b]);
                } else {
                    assert(out@[a] == o0[a]);
                    assert(out@[b] == w0[mi as int]);
                }
            }
            assert forall|i: int| 0 <= i < out@.len() implies mv.contains_key(#[trigger] out@[i]) by {
                if i < o0.len() {
                    assert(out@[i] == o0[i]);
                }
            }
        }
    }
    proof {
        assert(work@.to_multiset() =~= vstd::multiset::Multiset::empty());
        assert(out@.to_multiset() =~= out@.to_multiset().add(work@.to_multiset()));
    }
    out
}

} // verus!

verus! {

/// Website `wid` links instance `p` to child `c`: an instance of the website
/// whose parent is `p` records the id `c`, and `c` is present.
pub open spec fn links(m: Map<u128, InstanceView>, wid: u128, p: u128, c: u128) -> bool {
    m.contains_key(c) && exists|k: u128| #[trigger] child_of(m, wid, p)(k) && m[k].id == c
}

/// Every link out of `s` stays in `s` and strictly lowers `rank`.
pub open spec fn ranked_by(
    m: Map<u128, InstanceView>,
    wid: u128,
    s: Set<u128>,
    rank: spec_fn(u128) -> nat,
) -> bool {
    forall|p: u128, c: u128| s.contains(p) && #[trigger] links(m, wid, p, c) ==> s.contains(c) && rank(c) < rank(p)
}

/// Walking down the links of website `wid` from the present `roots` comes
/// to an end: no cycle of links is reachable from them.
pub open spec fn finite_descent(m: Map<u128, InstanceView>, wid: u128, roots: Seq<u128>) -> bool {
    exists|s: Set<u128>, rank: spec_fn(u128) -> nat|
        #![trigger ranked_by(m, wid, s, rank)]
        ranked_by(m, wid, s, rank) && forall|i: int| 0 <= i < roots.len() && m.contains_key(roots[i]) ==> s.contains(#[trigger] roots[i])
}

/// A child id that was listed is linked from its parent.
proof fn lemma_listed_is_linked(m: Map<u128, InstanceView>, wid: u128, p: u128, e: Seq<u128>, c: u128)
    requires
        listed_children(m, wid, p, e).contains(c),
    ensures
        links(m, wid, p, c),
{
    let sel = child_of(m, wid, p);
    let idf = |k: u128| m[k].id;
    let present = |x: u128| m.contains_key(x);
    let f = e.filter(sel);
    let mapped = f.map_values(idf);
    let q = choose|q: int| 0 <= q < mapped.filter(present).len() && mapped.filter(present)[q] == c;
    mapped.lemma_filter_pred(present, q);
    mapped.lemma_filter_contains_rev(present, c);
    let j = choose|j: int| 0 <= j < mapped.len() && mapped[j] == c;
    e.lemma_filter_pred(sel, j);
    assert(e.filter(sel)[j] == f[j]);
    assert(sel(f[j]));
    assert(m[f[j]].id == c);
}

/// The subtree of website `wid` at present key `id`.
fn build_node(
    m: &HashMap<u128, Instance>,
    all: &Vec<u128>,
    wid: u128,
    id: u128,
    Ghost(s): Ghost<Set<u128>>,
    Ghost(rank): Ghost<spec_fn(u128) -> nat>,
) -> (r: InstanceTreeNode)
    requires
        m@.contains_key(id),
        enumerates(all@, instances_view(m@)),
        ranked_by(instances_view(m@), wid, s, rank),
        s.contains(id),
    ensures
        subtree(r@, instances_view(m@), wid, id),
    decreases rank(id),
{
    broadcast use {vstd::multiset::group_multiset_axioms, vstd::seq_lib::group_to_multiset_ensures};
    let ghost mv = instances_view(m@);
    let instance = match m.get(&id) {
        Some(i) => i.clone(),
        None => {
            proof {
                assert(false);
            }
            return InstanceTreeNode { instance: Instance { id, website_id: wid, parent_instance_id: None, user_name: None, page_title: None, current_url: String::new(), created_at_ms: 0, icon: None }, children: Vec::new() };
        },
    };
    let listed = listed_child_ids(m, all, wid, id);
    proof {
        assert forall|i: int| 0 <= i < listed@.len() implies m@.contains_key(#[trigger] listed@[i]) by {
            let idf = |k: u128| mv[k].id;
            listed_children(mv, wid, id, all@);
            all@.filter(child_of(mv, wid, id)).map_values(idf).lemma_filter_pred(|c: u128| mv.contains_key(c), i);
        }
    }
    let ks = sort_by_creation(m, listed);
    let mut children: Vec<InstanceTreeNode> = Vec::new();
    let mut i: usize = 0;
    while i < ks.len()
        invariant
            mv == instances_view(m@),
            enumerates(all@, mv),
            ranked_by(mv, wid, s, rank),
            s.contains(id),
            sorted_by_creation(mv, ks@),
            ks@.to_multiset() == listed_children(mv, wid, id, all@).to_multiset(),
            i <= ks@.len(),
            children@.len() == i,
            forall|j: int| 0 <= j < i ==> subtree((#[trigger] children@[j])@, mv, wid, ks@[j]),
        decreases ks@.len() - i,
    {
        let c = ks[i];
        proof {
            ks@.to_multiset_ensures();
            listed_children(mv, wid, id, all@).to_multiset_ensures();
            assert(ks@[i as int] == c);
            assert(ks@.contains(c));
            assert(ks@.to_multiset().count(c) > 0);
            assert(listed_children(mv, wid, id, all@).contains(c));
            lemma_listed_is_linked(mv, wid, id, all@, c);
            assert(links(mv, wid, id, c));
        }
        let child = build_node(m, all, wid, c, Ghost(s), Ghost(rank));
        children.push(child);
        i = i + 1;
    }
    let node = InstanceTreeNode { instance, children };
    proof {
        let nv = node@;
        assert(nv.children.len() == ks@.len());
        assert forall|j: int| 0 <= j < ks@.len() implies subtree(nv.children[j], mv, wid, ks@[j]) by {
            assert(nv.children[j] == node.children@[j]@);
        }
        assert(children_keys(mv, wid, id, ks@));
    }
    node
}

/// The sidebar tree of website `website_id`: one subtree per root of the
/// first website with that id whose instance is present, in root order.
/// An unknown website gives no trees.
///
/// The walk down from the roots must come to an end (no cycle of parent
/// links is reachable from them).
pub fn project_tree(state: &AppState, website_id: u128) -> (r: Vec<InstanceTreeNode>)
    requires
        ({
            let wi = crate::commands::state_ops::website_index(state@, website_id);
            wi >= 0 ==> finite_descent(state@.instances, website_id, state@.websites[wi].root_instance_ids)
        }),
    ensures
        ({
            let wi = crate::commands::state_ops::website_index(state@, website_id);
            let roots = if wi >= 0 {
                state@.websites[wi].root_instance_ids.filter(|k: u128| state@.instances.contains_key(k))
            } else {
                Seq::empty()
            };
            &&& r@.len() == roots.len()
            &&& forall|i: int| 0 <= i < roots.len() ==> subtree((#[trigger] r@[i])@, state@.instances, website_id, roots[i])
        }),
{
    let ghost mv = state@.instances;
    let mut out: Vec<InstanceTreeNode> = Vec::new();
    let wi = match crate::commands::state_ops::find_website(&state.websites, website_id) {
        Some(i) => i,
        None => {
            return out;
        },
    };
    let ghost roots_all = state@.websites[wi as int].root_instance_ids;
    proof {
        assert(state.websites@[wi as int]@ == state@.websites[wi as int]);
    }
    let roots = &state.websites[wi].root_instance_ids;
    let ghost (s, rank) = choose|s: Set<u128>, rank: spec_fn(u128) -> nat|
        #![trigger ranked_by(mv, website_id, s, rank)]
        ranked_by(mv, website_id, s, rank) && forall|i: int| 0 <= i < roots_all.len() && mv.contains_key(roots_all[i]) ==> s.contains(#[trigger] roots_all[i]);
    let all = instance_ids(&state.instances);
    proof {
        assert(mv.dom() =~= state.instances@.dom());
    }
    let ghost present = |k: u128| mv.contains_key(k);
    let mut i: usize = 0;
    while i < roots.len()
        invariant
            mv == state@.instances,
            mv == instances_view(state.instances@),
            roots@ == roots_all,
            present == (|k: u128| mv.contains_key(k)),
            enumerates(all@, mv),
            ranked_by(mv, website_id, s, rank),
            forall|j: int| 0 <= j < roots_all.len() && mv.contains_key(roots_all[j]) ==> s.contains(#[trigger] roots_all[j]),
            i <= roots@.len(),
            out@.len() == roots_all.take(i as int).filter(present).len(),
            forall|j: int| 0 <= j < out@.len() ==> subtree((#[trigger] out@[j])@, mv, website_id, roots_all.take(i as int).filter(present)[j]),
        decreases roots@.len() - i,
    {
        let id = roots[i];
        proof {
            assert(roots_all.take(i + 1) =~= roots_all.take(i as int).push(id));
            roots_all.take(i as int).lemma_filter_push(id, present);
        }
        if state.instances.contains_key(&id) {
            proof {
                assert(s.contains(roots_all[i as int]));
            }
            let node = build_node(&state.instances, &all, website_id, id, Ghost(s), Ghost(rank));
            out.push(node);
        }
        i = i + 1;
    }
    proof {
        assert(roots_all.take(roots_all.len() as int) =~= roots_all);
        assert(state@.websites[wi as int].root_instance_ids.filter(|k: u128| state@.instances.contains_key(k)) == roots_all.filter(present));
    }
    out
}

} // verus!

verus! {

/// Milliseconds since the epoch as an `i64` (truncating like `as`), or 0
/// when the clock reads before the epoch.
pub fn epoch_ms(elapsed_millis: Option<u128>) -> (r: i64)
    ensures
        r == match elapsed_millis {
            Some(ms) => ms as i64,
            None => 0,
        },
{
    match elapsed_millis {
        Some(ms) => ms as i64,
        None => 0,
    }
}

/// The current time in milliseconds since the Unix epoch, 0 when the clock
/// reads before the epoch.
pub fn now_ms() -> i64 {
    let now = crate::clock::system_now();
    match crate::clock::since_unix_epoch(&now) {
        Ok(d) => epoch_ms(Some(crate::clock::whole_millis(&d))),
        Err(_) => epoch_ms(None),
    }
}

} // verus!
