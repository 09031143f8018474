use vstd::prelude::*;
use vstd::string::*;
use crate::component::{Component, ComponentID, NO_COMPONENT_INDEX};
use crate::error::SimError;
use crate::names::{is_valid_name, push_char, valid_name};

verus! {

/// The dotted path from the root down to `id`.
pub open spec fn path_of(s: Seq<Component>, id: int) -> Seq<char>
    decreases id,
{
    if 0 <= id < s.len() {
        let c = s[id];
        if c.parent.is_none() || c.parent.0 >= id || c.parent.0 < 0 {
            c.name@
        } else {
            path_of(s, c.parent.0 as int) + seq!['.'] + c.name@
        }
    } else {
        Seq::empty()
    }
}

/// Whether `a` is a strict ancestor of `d`.
pub open spec fn is_ancestor(s: Seq<Component>, a: int, d: int) -> bool
    decreases d,
{
    if 0 <= d < s.len() && !s[d].parent.is_none() && s[d].parent.0 < d {
        let p = s[d].parent.0 as int;
        p == a || is_ancestor(s, a, p)
    } else {
        false
    }
}

/// The child of the root on the path from the root to `id`.
pub open spec fn top_of(s: Seq<Component>, id: int) -> int
    decreases id,
{
    if 0 <= id < s.len() && !s[id].parent.is_none() && s[id].parent.0 < id {
        let p = s[id].parent.0 as int;
        if s[p].parent.is_none() {
            id
        } else {
            top_of(s, p)
        }
    } else {
        id
    }
}

/// The well-formed trees: the root is at index 0, every other component's parent was
/// added before it, each parent lists exactly its children in ascending order, sibling
/// names differ and every name is valid.
pub open spec fn tree_wf(s: Seq<Component>) -> bool {
    &&& s.len() < NO_COMPONENT_INDEX
    &&& s.len() > 0 ==> s[0].parent.is_none()
    &&& forall|i: int| 1 <= i < s.len() ==> (#[trigger] s[i].parent.0) < i
    &&& forall|i: int, k: int|
        0 <= i < s.len() && 0 <= k < s[i].children@.len() ==> {
            let c = (#[trigger] s[i].children@[k]).0 as int;
            i < c < s.len() && s[c].parent.0 == i
        }
    &&& forall|i: int, k1: int, k2: int|
        0 <= i < s.len() && 0 <= k1 < k2 < s[i].children@.len() ==> (#[trigger] s[i].children@[k1]).0
            < (#[trigger] s[i].children@[k2]).0
    &&& forall|j: int|
        1 <= j < s.len() ==> #[trigger] s[s[j].parent.0 as int].children@.contains(ComponentID(j as usize))
    &&& forall|j: int, k: int|
        1 <= j < s.len() && 1 <= k < s.len() && j != k && #[trigger] s[j].parent == #[trigger] s[k].parent
            ==> s[j].name@ != s[k].name@
    &&& forall|i: int| 0 <= i < s.len() ==> valid_name(#[trigger] s[i].name@)
}

/// How a path is shown in log output: padded on the right to the longest path, or where
/// a positive `max` is smaller than that, to `max`; a path longer than such a `max`
/// keeps its last `max` characters behind an ellipsis.
pub open spec fn display_of(path: Seq<char>, largest: nat, max: nat) -> Seq<char> {
    if max > 0 && largest > max {
        if path.len() > max {
            seq!['…'] + path.subrange(path.len() - max, path.len() as int)
        } else {
            pad(path, max)
        }
    } else {
        pad(path, largest)
    }
}

pub open spec fn pad(s: Seq<char>, width: nat) -> Seq<char> {
    if s.len() >= width {
        s
    } else {
        s + Seq::new((width - s.len()) as nat, |i: int| ' ')
    }
}

/// The name shown for the kernel's own log lines.
pub open spec fn kernel_path() -> Seq<char> {
    seq!['s', 'i', 'm', 'u', 'l', 'a', 't', 'i', 'o', 'n']
}

/// Paths depend on names and parents only, so they survive any change that keeps those.
proof fn lemma_path_stable(old: Seq<Component>, new: Seq<Component>, i: int)
    requires
        old.len() <= new.len(),
        forall|j: int| 0 <= j < old.len() ==> (#[trigger] new[j]).name@ == old[j].name@ && new[j].parent == old[j].parent,
        0 <= i < old.len(),
    ensures
        path_of(new, i) == path_of(old, i),
    decreases i,
{
    let c = old[i];
    if !(c.parent.is_none() || c.parent.0 >= i || c.parent.0 < 0) {
        lemma_path_stable(old, new, c.parent.0 as int);
    }
}

/// Ancestors come before their descendants.
pub proof fn lemma_ancestor_lt(s: Seq<Component>, a: int, d: int)
    requires
        is_ancestor(s, a, d),
    ensures
        a < d,
    decreases d,
{
    let p = s[d].parent.0 as int;
    if p != a {
        lemma_ancestor_lt(s, a, p);
    }
}

pub proof fn lemma_ancestor_trans(s: Seq<Component>, a: int, b: int, d: int)
    requires
        is_ancestor(s, a, b),
        is_ancestor(s, b, d),
    ensures
        is_ancestor(s, a, d),
    decreases d,
{
    let p = s[d].parent.0 as int;
    if p != b {
        lemma_ancestor_trans(s, a, b, p);
    }
}

/// Some item of `items` is a strict ancestor of `d`.
pub open spec fn under(s: Seq<Component>, items: Seq<ComponentID>, d: int) -> bool {
    exists|j: int| 0 <= j < items.len() && is_ancestor(s, (#[trigger] items[j]).0 as int, d)
}

/// Some item of `items` is `d` or a strict ancestor of it.
pub open spec fn under_or_at(s: Seq<Component>, items: Seq<ComponentID>, d: int) -> bool {
    exists|j: int|
        0 <= j < items.len() && ((#[trigger] items[j]).0 == d || is_ancestor(s, items[j].0 as int, d))
}

/// A strict descendant of `w` is a child of `w` or lies below one.
proof fn lemma_descendant_split(s: Seq<Component>, w: int, d: int)
    requires
        tree_wf(s),
        0 <= w < s.len(),
        is_ancestor(s, w, d),
    ensures
        under_or_at(s, s[w].children@, d),
    decreases d,
{
    let p = s[d].parent.0 as int;
    let kids = s[w].children@;
    if p == w {
        assert(s[s[d].parent.0 as int].children@.contains(ComponentID(d as usize)));
        let k = choose|k: int| 0 <= k < kids.len() && kids[k] == ComponentID(d as usize);
        assert(kids[k].0 == d);
    } else {
        lemma_descendant_split(s, w, p);
        let k = choose|k: int|
            0 <= k < kids.len() && ((#[trigger] kids[k]).0 == p || is_ancestor(s, kids[k].0 as int, p));
        assert(is_ancestor(s, kids[k].0 as int, d));
    }
}

/// The number of parent steps from `d` up to `a`; 0 for `d == a`.
pub open spec fn depth(s: Seq<Component>, a: int, d: int) -> nat
    decreases d,
{
    if d == a {
        0
    } else if 0 <= d < s.len() && !s[d].parent.is_none() && s[d].parent.0 < d {
        1 + depth(s, a, s[d].parent.0 as int)
    } else {
        0
    }
}

/// Below `a`, a strict descendant of `w` lies deeper than `w`.
proof fn lemma_depth_grows(s: Seq<Component>, a: int, w: int, d: int)
    requires
        is_ancestor(s, w, d),
        w == a || is_ancestor(s, a, w),
    ensures
        depth(s, a, d) > depth(s, a, w),
    decreases d,
{
    lemma_ancestor_lt(s, w, d);
    if w != a {
        lemma_ancestor_lt(s, a, w);
    }
    let p = s[d].parent.0 as int;
    if p != w {
        lemma_depth_grows(s, a, w, p);
    }
}

/// Contains all the `Component`s of a simulation. Append only: ids stay valid for ever.
pub struct Components {
    components: Vec<Component>,
    max_log_path: usize,
    largest_path: usize,
}

impl View for Components {
    type V = Seq<Component>;

    closed spec fn view(&self) -> Seq<Component> {
        self.components@
    }
}

impl Components {
    /// The longest path, in characters.
    pub closed spec fn largest(&self) -> nat {
        self.largest_path as nat
    }

    /// The width that log output may give a path; zero for no limit.
    pub closed spec fn max_path(&self) -> nat {
        self.max_log_path as nat
    }

    pub open spec fn wf(&self) -> bool {
        &&& tree_wf(self@)
        &&& forall|i: int| 0 <= i < self@.len() ==> (#[trigger] path_of(self@, i)).len() <= self.largest()
        &&& self@.len() == 0 ==> self.largest() == 0
        &&& self@.len() > 0 ==> exists|i: int| 0 <= i < self@.len() && (#[trigger] path_of(self@, i)).len() == self.largest()
    }

    pub open spec fn valid_id(&self, id: ComponentID) -> bool {
        0 <= id.0 < self@.len()
    }

    pub fn new(max_log_path: usize) -> (r: Components)
        ensures
            r.wf(),
            r@.len() == 0,
            r.max_path() == max_log_path,
    {
        Components { components: Vec::new(), max_log_path, largest_path: 0 }
    }

    pub fn len(&self) -> (r: usize)
        ensures
            r == self@.len(),
    {
        self.components.len()
    }

    pub fn is_empty(&self) -> (r: bool)
        ensures
            r == (self@.len() == 0),
    {
        self.components.len() == 0
    }

    /// Note that this can return a removed component: removal only marks components.
    pub fn get(&self, id: ComponentID) -> (r: &Component)
        requires
            self.valid_id(id),
        ensures
            *r == self@[id.0 as int],
    {
        &self.components[id.0]
    }

    /// The root is the ancestor of all other components.
    pub fn get_root(&self) -> (r: (ComponentID, &Component))
        requires
            self.wf(),
            self@.len() > 0,
        ensures
            r.0.0 == 0,
            *r.1 == self@[0],
            r.1.parent.is_none(),
    {
        (ComponentID(0), &self.components[0])
    }

    /// Returns the dotted path from the root down to `id`; empty for `NO_COMPONENT`.
    pub fn full_path(&self, id: ComponentID) -> (r: String)
        requires
            self.wf(),
            self.valid_id(id) || id.is_none(),
        ensures
            r@ == path_of(self@, id.0 as int),
            id.is_none() ==> r@.len() == 0,
        decreases id.0,
    {
        if id.is_no_component() {
            return String::new();
        }
        let c = &self.components[id.0];
        if c.parent.is_no_component() {
            c.name.clone()
        } else {
            let mut p = self.full_path(c.parent);
            p.append(".");
            p.append(c.name.as_str());
            proof {
                reveal_strlit(".");
            }
            p
        }
    }

    /// The path of `id` as shown in log output (see `display_of`); `NO_COMPONENT` stands
    /// for the kernel itself.
    pub fn display_path(&self, id: ComponentID) -> (r: String)
        requires
            self.wf(),
            self.valid_id(id) || id.is_none(),
        ensures
            r@ == display_of(
                if id.is_none() {
                    kernel_path()
                } else {
                    path_of(self@, id.0 as int)
                },
                self.largest(),
                self.max_path(),
            ),
    {
        let path = if id.is_no_component() {
            let k = String::from_str("simulation");
            proof {
                reveal_strlit("simulation");
                assert(k@ =~= kernel_path());
            }
            k
        } else {
            self.full_path(id)
        };
        let len = path.as_str().unicode_len();
        let max = self.max_log_path;
        if max > 0 && self.largest_path > max {
            if len > max {
                let mut r = String::new();
                push_char(&mut r, '…');
                let mut i = len - max;
                while i < len
                    invariant
                        len == path@.len(),
                        max < len,
                        len - max <= i <= len,
                        r@ == seq!['…'] + path@.subrange(len - max, i as int),
                    decreases len - i,
                {
                    push_char(&mut r, path.as_str().get_char(i));
                    proof {
                        assert(path@.subrange(len - max, i + 1) =~= path@.subrange(len - max, i as int).push(path@[i as int]));
                    }
                    i += 1;
                }
                r
            } else {
                pad_to(path, max)
            }
        } else {
            pad_to(path, self.largest_path)
        }
    }

    /// The child of the root on the path from the root to `id`. `id` must not be the root.
    pub fn get_top(&self, id: ComponentID) -> (r: (ComponentID, &Component))
        requires
            self.wf(),
            self.valid_id(id),
            !self@[id.0 as int].parent.is_none(),
        ensures
            r.0.0 == top_of(self@, id.0 as int),
            *r.1 == self@[r.0.0 as int],
    {
        let mut cur = id;
        loop
            invariant
                self.wf(),
                self.valid_id(cur),
                !self@[cur.0 as int].parent.is_none(),
                top_of(self@, cur.0 as int) == top_of(self@, id.0 as int),
            decreases cur.0,
        {
            let c = &self.components[cur.0];
            let d = &self.components[c.parent.0];
            if d.parent.is_no_component() {
                return (cur, c);
            }
            cur = c.parent;
        }
    }

    /// The nearest ancestor of `id` that satisfies the predicate.
    pub fn find_parent<P>(&self, id: ComponentID, predicate: P) -> (r: Option<(ComponentID, &Component)>) where
        P: Fn(ComponentID, &Component) -> bool,
        requires
            self.wf(),
            self.valid_id(id),
            forall|i: ComponentID, c: &Component| predicate.requires((i, c)),
        ensures
            r matches Some((a, c)) ==> {
                &&& is_ancestor(self@, a.0 as int, id.0 as int)
                &&& *c == self@[a.0 as int]
                &&& predicate.ensures((a, c), true)
                &&& forall|b: int|
                    is_ancestor(self@, b, id.0 as int) && is_ancestor(self@, a.0 as int, b) ==> predicate.ensures(
                        (ComponentID(b as usize), &self@[b]),
                        false,
                    )
            },
            r is None ==> forall|b: int|
                is_ancestor(self@, b, id.0 as int) ==> predicate.ensures((ComponentID(b as usize), &self@[b]), false),
    {
        let mut cur = id;
        loop
            invariant
                self.wf(),
                self.valid_id(cur),
                forall|i: ComponentID, c: &Component| predicate.requires((i, c)),
                cur == id || is_ancestor(self@, cur.0 as int, id.0 as int),
                forall|b: int|
                    is_ancestor(self@, b, id.0 as int) && !is_ancestor(self@, b, cur.0 as int) ==> predicate.ensures(
                        (ComponentID(b as usize), &self@[b]),
                        false,
                    ),
            decreases cur.0,
        {
            let c = &self.components[cur.0];
            if c.parent.is_no_component() {
                return None;
            }
            let pid = c.parent;
            let parent = &self.components[pid.0];
            proof {
                assert(is_ancestor(self@, pid.0 as int, cur.0 as int));
                if cur != id {
                    lemma_ancestor_trans(self@, pid.0 as int, cur.0 as int, id.0 as int);
                }
            }
            if predicate(pid, parent) {
                proof {
                    assert forall|b: int|
                        is_ancestor(self@, b, id.0 as int) && is_ancestor(self@, pid.0 as int, b) implies predicate.ensures(
                            (ComponentID(b as usize), &self@[b]),
                            false,
                        ) by {
                        if is_ancestor(self@, b, cur.0 as int) {
                            if b == pid.0 {
                                lemma_ancestor_lt(self@, pid.0 as int, b);
                            } else {
                                lemma_ancestor_lt(self@, pid.0 as int, b);
                                lemma_ancestor_lt(self@, b, pid.0 as int);
                            }
                        }
                    }
                }
                return Some((pid, parent));
            }
            cur = pid;
        }
    }

    /// Searches the strict descendants of `id` breadth first, a generation at a time and
    /// each generation in the order its members were added, for one that satisfies the
    /// predicate.
    pub fn find_child<P>(&self, id: ComponentID, predicate: P) -> (r: Option<(ComponentID, &Component)>) where
        P: Fn(ComponentID, &Component) -> bool,
        requires
            self.wf(),
            self.valid_id(id),
            forall|i: ComponentID, c: &Component| predicate.requires((i, c)),
        ensures
            r matches Some((a, c)) ==> {
                &&& is_ancestor(self@, id.0 as int, a.0 as int)
                &&& *c == self@[a.0 as int]
                &&& predicate.ensures((a, c), true)
                &&& forall|d: int|
                    is_ancestor(self@, id.0 as int, d) && depth(self@, id.0 as int, d) < depth(self@, id.0 as int, a.0 as int)
                        ==> predicate.ensures((ComponentID(d as usize), &self@[d]), false)
            },
            r is None ==> forall|d: int|
                is_ancestor(self@, id.0 as int, d) ==> predicate.ensures((ComponentID(d as usize), &self@[d]), false),
    {
        let ghost s = self@;
        let mut level: Vec<ComponentID> = Vec::new();
        level.push(id);
        let ghost mut bound: int = id.0 as int;
        let ghost mut lvl: nat = 0;
        proof {
            assert forall|d: int| is_ancestor(s, id.0 as int, d) implies under(s, level@, d) by {
                assert(level@[0] == id);
            }
        }
        while level.len() > 0
            invariant
                self.wf(),
                s == self@,
                forall|i: ComponentID, c: &Component| predicate.requires((i, c)),
                forall|j: int|
                    0 <= j < level@.len() ==> {
                        let w = (#[trigger] level@[j]).0 as int;
                        &&& bound <= w < s.len()
                        &&& (w == id.0 || is_ancestor(s, id.0 as int, w))
                        &&& depth(s, id.0 as int, w) == lvl
                    },
                forall|d: int|
                    is_ancestor(s, id.0 as int, d) ==> predicate.ensures((ComponentID(d as usize), &s[d]), false)
                        || under(s, level@, d),
            decreases s.len() - bound,
        {
            assert(bound <= level@[0].0 < s.len());
            let mut next: Vec<ComponentID> = Vec::new();
            let mut j: usize = 0;
            assert(level@.subrange(0, level@.len() as int) =~= level@);
            while j < level.len()
                invariant
                    self.wf(),
                    s == self@,
                    forall|i: ComponentID, c: &Component| predicate.requires((i, c)),
                    0 <= j <= level@.len(),
                    forall|j2: int|
                        0 <= j2 < level@.len() ==> {
                            let w = (#[trigger] level@[j2]).0 as int;
                            &&& bound <= w < s.len()
                            &&& (w == id.0 || is_ancestor(s, id.0 as int, w))
                            &&& depth(s, id.0 as int, w) == lvl
                        },
                    forall|n: int|
                        0 <= n < next@.len() ==> {
                            let c = (#[trigger] next@[n]).0 as int;
                            &&& bound < c < s.len()
                            &&& is_ancestor(s, id.0 as int, c)
                            &&& depth(s, id.0 as int, c) == lvl + 1
                        },
                    forall|d: int|
                        is_ancestor(s, id.0 as int, d) ==> predicate.ensures((ComponentID(d as usize), &s[d]), false)
                            || under(s, level@.subrange(j as int, level@.len() as int), d) || under(s, next@, d),
                decreases level@.len() - j,
            {
                let w = level[j];
                let kids = &self.components[w.0].children;
                proof {
                    assert forall|d: int|
                        is_ancestor(s, id.0 as int, d) && !predicate.ensures((ComponentID(d as usize), &s[d]), false)
                            && !under(s, next@, d) implies under(s, level@.subrange(j + 1, level@.len() as int), d)
                            || under_or_at(s, kids@, d) by {
                        let rest = level@.subrange(j as int, level@.len() as int);
                        let j2 = choose|j2: int| 0 <= j2 < rest.len() && is_ancestor(s, (#[trigger] rest[j2]).0 as int, d);
                        if j2 == 0 {
                            lemma_descendant_split(s, w.0 as int, d);
                        } else {
                            assert(level@.subrange(j + 1, level@.len() as int)[j2 - 1] == rest[j2]);
                        }
                    }
                }
                let mut k: usize = 0;
                assert(kids@.subrange(0, kids@.len() as int) =~= kids@);
                while k < kids.len()
                    invariant
                        self.wf(),
                        s == self@,
                        *kids == s[w.0 as int].children,
                        forall|i: ComponentID, c: &Component| predicate.requires((i, c)),
                        0 <= j < level@.len(),
                        w == level@[j as int],
                        bound <= w.0 < s.len(),
                        w.0 == id.0 || is_ancestor(s, id.0 as int, w.0 as int),
                        depth(s, id.0 as int, w.0 as int) == lvl,
                        forall|j2: int|
                            0 <= j2 < level@.len() ==> {
                                let w2 = (#[trigger] level@[j2]).0 as int;
                                &&& (w2 == id.0 || is_ancestor(s, id.0 as int, w2))
                                &&& depth(s, id.0 as int, w2) == lvl
                            },
                        0 <= k <= kids@.len(),
                        forall|n: int|
                            0 <= n < next@.len() ==> {
                                let c = (#[trigger] next@[n]).0 as int;
                                &&& bound < c < s.len()
                                &&& is_ancestor(s, id.0 as int, c)
                                &&& depth(s, id.0 as int, c) == lvl + 1
                            },
                        forall|d: int|
                            is_ancestor(s, id.0 as int, d) ==> predicate.ensures((ComponentID(d as usize), &s[d]), false)
                                || under(s, level@.subrange(j + 1, level@.len() as int), d) || under(s, next@, d)
                                || under_or_at(s, kids@.subrange(k as int, kids@.len() as int), d),
                    decreases kids@.len() - k,
                {
                    let c = kids[k];
                    proof {
                        assert(s[c.0 as int].parent.0 == w.0);
                        assert(is_ancestor(s, w.0 as int, c.0 as int));
                        if w.0 != id.0 {
                            lemma_ancestor_trans(s, id.0 as int, w.0 as int, c.0 as int);
                        }
                    }
                    let comp = &self.components[c.0];
                    proof {
                        assert(depth(s, id.0 as int, c.0 as int) == lvl + 1) by {
                            lemma_ancestor_lt(s, w.0 as int, c.0 as int);
                            if w.0 != id.0 {
                                lemma_ancestor_lt(s, id.0 as int, w.0 as int);
                            }
                        }
                    }
                    if predicate(c, comp) {
                        proof {
                            assert forall|d: int|
                                is_ancestor(s, id.0 as int, d) && depth(s, id.0 as int, d) < depth(s, id.0 as int, c.0 as int)
                                    implies predicate.ensures((ComponentID(d as usize), &s[d]), false) by {
                                let rest = level@.subrange(j + 1, level@.len() as int);
                                if under(s, rest, d) {
                                    let j2 = choose|j2: int| 0 <= j2 < rest.len() && is_ancestor(s, (#[trigger] rest[j2]).0 as int, d);
                                    assert(rest[j2] == level@[j + 1 + j2]);
                                    lemma_depth_grows(s, id.0 as int, rest[j2].0 as int, d);
                                }
                                if under(s, next@, d) {
                                    let n = choose|n: int| 0 <= n < next@.len() && is_ancestor(s, (#[trigger] next@[n]).0 as int, d);
                                    lemma_depth_grows(s, id.0 as int, next@[n].0 as int, d);
                                }
                                let ks = kids@.subrange(k as int, kids@.len() as int);
                                if under_or_at(s, ks, d) {
                                    let k2 = choose|k2: int|
                                        0 <= k2 < ks.len() && ((#[trigger] ks[k2]).0 == d || is_ancestor(s, ks[k2].0 as int, d));
                                    let kc = ks[k2].0 as int;
                                    assert(s[kc].parent.0 == w.0);
                                    assert(is_ancestor(s, w.0 as int, kc));
                                    if w.0 != id.0 {
                                        lemma_ancestor_trans(s, id.0 as int, w.0 as int, kc);
                                    }
                                    lemma_depth_grows(s, id.0 as int, w.0 as int, kc);
                                    lemma_ancestor_lt(s, w.0 as int, kc);
                                    if w.0 != id.0 {
                                        lemma_ancestor_lt(s, id.0 as int, w.0 as int);
                                    }
                                    assert(depth(s, id.0 as int, kc) == lvl + 1);
                                    if kc != d {
                                        lemma_depth_grows(s, id.0 as int, kc, d);
                                    }
                                }
                            }
                        }
                        return Some((c, comp));
                    }
                    let ghost old_next = next@;
                    next.push(c);
                    proof {
                        assert forall|d: int|
                            is_ancestor(s, id.0 as int, d) implies predicate.ensures((ComponentID(d as usize), &s[d]), false)
                                || under(s, level@.subrange(j + 1, level@.len() as int), d) || under(s, next@, d)
                                || under_or_at(s, kids@.subrange(k + 1, kids@.len() as int), d) by {
                            if under(s, old_next, d) {
                                let n = choose|n: int| 0 <= n < old_next.len() && is_ancestor(s, (#[trigger] old_next[n]).0 as int, d);
                                assert(next@[n] == old_next[n]);
                            }
                            let ks = kids@.subrange(k as int, kids@.len() as int);
                            if under_or_at(s, ks, d) {
                                let k2 = choose|k2: int|
                                    0 <= k2 < ks.len() && ((#[trigger] ks[k2]).0 == d || is_ancestor(s, ks[k2].0 as int, d));
                                if k2 == 0 {
                                    if ks[k2].0 != d {
                                        assert(next@[old_next.len() as int] == c);
                                    }
                                } else {
                                    assert(kids@.subrange(k + 1, kids@.len() as int)[k2 - 1] == ks[k2]);
                                }
                            }
                        }
                    }
                    k += 1;
                }
                proof {
                    assert(kids@.subrange(k as int, kids@.len() as int).len() == 0);
                    assert forall|d: int|
                        is_ancestor(s, id.0 as int, d) implies predicate.ensures((ComponentID(d as usize), &s[d]), false)
                            || under(s, level@.subrange(j + 1, level@.len() as int), d) || under(s, next@, d) by {
                        let ks = kids@.subrange(k as int, kids@.len() as int);
                        if under_or_at(s, ks, d) {
                            let k2 = choose|k2: int|
                                0 <= k2 < ks.len() && ((#[trigger] ks[k2]).0 == d || is_ancestor(s, ks[k2].0 as int, d));
                        }
                    }
                }
                j += 1;
            }
            proof {
                assert forall|d: int|
                    is_ancestor(s, id.0 as int, d) implies predicate.ensures((ComponentID(d as usize), &s[d]), false)
                        || under(s, next@, d) by {
                    let rest = level@.subrange(j as int, level@.len() as int);
                    if under(s, rest, d) {
                        let j2 = choose|j2: int| 0 <= j2 < rest.len() && is_ancestor(s, (#[trigger] rest[j2]).0 as int, d);
                    }
                }
            }
            level = next;
            proof {
                bound = bound + 1;
                lvl = lvl + 1;
            }
        }
        None
    }

    /// Calls `callback` on each child of `id`, in the order the children were added,
    /// that satisfies the predicate.
    pub fn for_each_child<P, C>(&self, id: ComponentID, predicate: P, callback: C) where
        P: Fn(ComponentID, &Component) -> bool,
        C: Fn(ComponentID, &Component),
        requires
            self.wf(),
            self.valid_id(id),
            forall|i: ComponentID, c: &Component| predicate.requires((i, c)),
            forall|i: ComponentID, c: &Component| callback.requires((i, c)),
    {
        let kids = &self.components[id.0].children;
        let mut k: usize = 0;
        while k < kids.len()
            invariant
                self.wf(),
                self.valid_id(id),
                *kids == self@[id.0 as int].children,
                forall|i: ComponentID, c: &Component| predicate.requires((i, c)),
                forall|i: ComponentID, c: &Component| callback.requires((i, c)),
            decreases kids@.len() - k,
        {
            let c = kids[k];
            assert(c.0 < self@.len());
            let child = &self.components[c.0];
            if predicate(c, child) {
                callback(c, child);
            }
            k += 1;
        }
    }

    // A variant taking an `FnMut` callback is left out: Verus cannot keep a closure's
    // precondition once a call has changed what it captured.

    /// Iterates over all the components in id order, which is the order they were added.
    pub fn iter(&self) -> (r: ComponentsIterator<'_>)
        ensures
            r.source() == self@,
            r.position() == 0,
    {
        ComponentsIterator::new(self)
    }

    /// Adds a component under `parent` (the first one added is the root, with
    /// `NO_COMPONENT` as parent) and returns its id, the next unused index.
    pub fn add(&mut self, name: &str, parent: ComponentID) -> (r: Result<ComponentID, SimError>)
        requires
            old(self).wf(),
            parent.is_none() <==> old(self)@.len() == 0,
            !parent.is_none() ==> old(self).valid_id(parent),
            old(self)@.len() + 1 < NO_COMPONENT_INDEX,
        ensures
            final(self).wf(),
            final(self).max_path() == old(self).max_path(),
            !valid_name(name@) ==> (r matches Err(SimError::InvalidName { name: n }) && n@ == name@),
            valid_name(name@) && self_has_sibling_named(old(self)@, parent, name@) ==> (r matches Err(
                SimError::DuplicateSibling { name: n },
            ) && n@ == name@),
            r is Err ==> final(self)@ == old(self)@ && final(self).largest() == old(self).largest(),
            valid_name(name@) && !self_has_sibling_named(old(self)@, parent, name@) ==> r == Ok::<
                ComponentID,
                SimError,
            >(ComponentID(old(self)@.len() as usize)),
            r is Ok ==> added(old(self)@, final(self)@, name@, parent),
    {
        if !is_valid_name(name) {
            return Err(SimError::InvalidName { name: String::from_str(name) });
        }
        let id = ComponentID(self.components.len());
        let owned = String::from_str(name);
        let path = if parent.is_no_component() {
            owned.clone()
        } else {
            let siblings = &self.components[parent.0].children;
            let mut k: usize = 0;
            while k < siblings.len()
                invariant
                    self.wf(),
                    self.valid_id(parent),
                    *siblings == self@[parent.0 as int].children,
                    owned@ == name@,
                    k <= siblings@.len(),
                    forall|j: int| 0 <= j < k ==> self@[(#[trigger] siblings@[j]).0 as int].name@ != name@,
                decreases siblings@.len() - k,
            {
                let sib = siblings[k];
                if self.components[sib.0].name == owned {
                    proof {
                        assert(self@[sib.0 as int].parent == parent);
                        assert(self_has_sibling_named(self@, parent, name@));
                    }
                    return Err(SimError::DuplicateSibling { name: owned });
                }
                k += 1;
            }
            proof {
                assert forall|j: int| 1 <= j < self@.len() && self@[j].parent == parent implies self@[j].name@ != name@ by {
                    assert(self@[parent.0 as int].children@.contains(ComponentID(j as usize)));
                    let kk = choose|kk: int| 0 <= kk < siblings@.len() && siblings@[kk] == ComponentID(j as usize);
                    assert(self@[(siblings@[kk]).0 as int].name@ != name@);
                }
            }
            let mut p = self.full_path(parent);
            p.append(".");
            p.append(name);
            proof {
                reveal_strlit(".");
            }
            p
        };
        let plen = path.as_str().unicode_len();
        let ghost old_s = self@;
        if !parent.is_no_component() {
            self.components[parent.0].children.push(id);
        }
        self.components.push(Component { name: owned, parent, children: Vec::new() });
        let ghost new_s = self@;
        proof {
            assert forall|j: int| 0 <= j < old_s.len() implies (#[trigger] new_s[j]).name@ == old_s[j].name@ && new_s[j].parent == old_s[j].parent by {}
            assert forall|j: int| 0 <= j < old_s.len() implies path_of(new_s, j) == path_of(old_s, j) by {
                lemma_path_stable(old_s, new_s, j);
            }
            if !parent.is_none() {
                lemma_path_stable(old_s, new_s, parent.0 as int);
            }
            assert(path_of(new_s, id.0 as int) == path@);
            assert forall|i: int, k1: int, k2: int|
                0 <= i < new_s.len() && 0 <= k1 < k2 < new_s[i].children@.len() implies (#[trigger] new_s[i].children@[k1]).0
                    < (#[trigger] new_s[i].children@[k2]).0 by {
                if i == parent.0 && k2 == new_s[i].children@.len() - 1 {
                    assert(new_s[i].children@[k1] == old_s[i].children@[k1]);
                }
            }
            assert forall|j: int| 1 <= j < new_s.len() implies #[trigger] new_s[new_s[j].parent.0 as int].children@.contains(ComponentID(j as usize)) by {
                if j < old_s.len() {
                    assert(tree_wf(old_s));
                    assert(old_s[old_s[j].parent.0 as int].children@.contains(ComponentID(j as usize)));
                    let kk = choose|kk: int| 0 <= kk < old_s[old_s[j].parent.0 as int].children@.len() && old_s[old_s[j].parent.0 as int].children@[kk] == ComponentID(j as usize);
                    assert(new_s[new_s[j].parent.0 as int].children@[kk] == ComponentID(j as usize));
                } else {
                    assert(new_s[parent.0 as int].children@.last() == id);
                }
            }
        }
        if plen > self.largest_path {
            self.largest_path = plen;
        }
        proof {
            if plen < self.largest_path {
                let w = choose|w: int| 0 <= w < old_s.len() && (#[trigger] path_of(old_s, w)).len() == self.largest();
                assert(path_of(new_s, w) == path_of(old_s, w));
            }
        }
        Ok(id)
    }
}

/// Whether some child of `parent` is called `name`.
pub open spec fn self_has_sibling_named(s: Seq<Component>, parent: ComponentID, name: Seq<char>) -> bool {
    exists|j: int| 1 <= j < s.len() && #[trigger] s[j].parent == parent && s[j].name@ == name
}

/// `new` is `old` with a component called `name` appended under `parent`.
pub open spec fn added(old: Seq<Component>, new: Seq<Component>, name: Seq<char>, parent: ComponentID) -> bool {
    let id = old.len();
    &&& new.len() == old.len() + 1
    &&& new[id as int].name@ == name
    &&& new[id as int].parent == parent
    &&& new[id as int].children@.len() == 0
    &&& forall|j: int| 0 <= j < old.len() ==> (#[trigger] new[j]).name@ == old[j].name@ && new[j].parent == old[j].parent
    &&& forall|j: int| 0 <= j < old.len() && j != parent.0 ==> (#[trigger] new[j]).children@ == old[j].children@
    &&& !parent.is_none() ==> new[parent.0 as int].children@ == old[parent.0 as int].children@.push(ComponentID(id as usize))
}

fn pad_to(s: String, width: usize) -> (r: String)
    ensures
        r@ == pad(s@, width as nat),
{
    let mut r = s;
    let mut len = r.as_str().unicode_len();
    if len >= width {
        return r;
    }
    let ghost s0 = r@;
    while len < width
        invariant
            s0.len() <= len <= width,
            r@.len() == len,
            r@ =~= s0 + Seq::new((len - s0.len()) as nat, |i: int| ' '),
        decreases width - len,
    {
        push_char(&mut r, ' ');
        len += 1;
    }
    r
}

/// Walks the components of a `Components` in id order.
pub struct ComponentsIterator<'a> {
    components: &'a Components,
    next: usize,
}

impl<'a> ComponentsIterator<'a> {
    /// The components walked over.
    pub closed spec fn source(&self) -> Seq<Component> {
        self.components@
    }

    /// The id of the next component handed out.
    pub closed spec fn position(&self) -> nat {
        self.next as nat
    }

    pub fn new(components: &'a Components) -> (r: ComponentsIterator<'a>)
        ensures
            r.source() == components@,
            r.position() == 0,
    {
        ComponentsIterator { components, next: 0 }
    }

    /// The next component with its id, or `None` once all have been handed out.
    pub fn next(&mut self) -> (r: Option<(ComponentID, &'a Component)>)
        ensures
            final(self).source() == old(self).source(),
            old(self).position() < old(self).source().len() ==> {
                &&& r matches Some((id, c)) && id.0 == old(self).position() && *c == old(self).source()[id.0 as int]
                &&& final(self).position() == old(self).position() + 1
            },
            old(self).position() >= old(self).source().len() ==> r is None && final(self).position() == old(self).position(),
    {
        if self.next < self.components.components.len() {
            let id = self.next;
            self.next = id + 1;
            Some((ComponentID(id), &self.components.components[id]))
        } else {
            None
        }
    }
}

} // verus!
