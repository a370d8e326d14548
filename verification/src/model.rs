//! The links and joints of a description, as a tree.

use vstd::prelude::*;
use crate::error::ParseError;
use crate::joint::{joints_view, Joint, JointView};
use crate::scan::{bytes_eq, copy_bytes};

verus! {

/// What a model holds: the names of its links, and its joints, whose
/// `parent` and `child` are positions in `links`.
pub struct ModelView {
    pub links: Seq<Seq<u8>>,
    pub joints: Seq<JointView>,
}

/// The byte strings of a list, in order.
pub open spec fn names_view(names: Seq<Vec<u8>>) -> Seq<Seq<u8>> {
    Seq::new(names.len(), |i: int| names[i]@)
}

/// Whether `i` is the first position of `name` in `names`.
pub open spec fn is_first_position(names: Seq<Seq<u8>>, name: Seq<u8>, i: int) -> bool {
    &&& 0 <= i < names.len()
    &&& names[i] == name
    &&& forall|k: int| 0 <= k < i ==> #[trigger] names[k] != name
}

/// The first position of `name` in `names`, if it is there.
pub open spec fn position_of(names: Seq<Seq<u8>>, name: Seq<u8>) -> Option<int> {
    if exists|i: int| is_first_position(names, name, i) {
        Some(choose|i: int| is_first_position(names, name, i))
    } else {
        None
    }
}

/// No two entries of `names` are equal.
pub open spec fn distinct(names: Seq<Seq<u8>>) -> bool {
    forall|a: int, b: int| 0 <= a < b < names.len() ==> #[trigger] names[a] != #[trigger] names[b]
}

impl ModelView {
    /// The names of the joints, in order.
    pub open spec fn joint_names(self) -> Seq<Seq<u8>> {
        Seq::new(self.joints.len(), |j: int| self.joints[j].name)
    }

    /// Every joint's parent and child is a link of the model.
    pub open spec fn links_resolve(self) -> bool {
        forall|j: int|
            0 <= j < self.joints.len() ==> {
                &&& 0 <= (#[trigger] self.joints[j]).parent < self.links.len()
                &&& 0 <= self.joints[j].child < self.links.len()
            }
    }

    /// Every joint's origin and axis are made of numerals.
    pub open spec fn numerals_valid(self) -> bool {
        forall|j: int| 0 <= j < self.joints.len() ==> (#[trigger] self.joints[j]).wf()
    }

    /// No link is the child of two joints.
    pub open spec fn single_parents(self) -> bool {
        forall|a: int, b: int|
            0 <= a < b < self.joints.len() ==> (#[trigger] self.joints[a]).child != (
            #[trigger] self.joints[b]).child
    }

    /// Whether `j` is a joint whose child is `link`.
    pub open spec fn leads_to(self, j: int, link: int) -> bool {
        0 <= j < self.joints.len() && self.joints[j].child == link
    }

    /// Whether `link` is the child of some joint.
    pub open spec fn has_parent(self, link: int) -> bool {
        exists|j: int| self.leads_to(j, link)
    }

    /// A joint whose child is `link`: the only one, where no link is the
    /// child of two.
    pub open spec fn parent_joint(self, link: int) -> int {
        choose|j: int| self.leads_to(j, link)
    }

    /// Whether going from `link` to its parent, and on from there, ends at a
    /// link without parent after at most `fuel` steps.
    pub open spec fn rooted(self, link: int, fuel: nat) -> bool
        decreases fuel,
    {
        if !self.has_parent(link) {
            true
        } else if fuel == 0 {
            false
        } else {
            self.rooted(self.joints[self.parent_joint(link)].parent, (fuel - 1) as nat)
        }
    }

    /// From every link, going from child to parent ends after at most as
    /// many steps as there are links.
    pub open spec fn all_rooted(self) -> bool {
        forall|l: int| 0 <= l < self.links.len() ==> self.rooted(l, self.links.len())
    }

    /// The model is a tree, or several, of links with distinct names, held
    /// together by joints with distinct names.
    pub open spec fn wf(self) -> bool {
        &&& self.links_resolve()
        &&& self.numerals_valid()
        &&& distinct(self.links)
        &&& distinct(self.joint_names())
        &&& self.single_parents()
        &&& self.all_rooted()
    }

    /// The first of the conditions of `wf` that fails, as the error that
    /// reports it.
    pub open spec fn defect(self) -> Option<ParseError> {
        if !self.links_resolve() {
            Some(ParseError::UndeclaredLink)
        } else if !self.numerals_valid() {
            Some(ParseError::InvalidNumber)
        } else if !distinct(self.links) {
            Some(ParseError::DuplicateLink)
        } else if !distinct(self.joint_names()) {
            Some(ParseError::DuplicateJoint)
        } else if !self.single_parents() || !self.all_rooted() {
            Some(ParseError::NotATree)
        } else {
            None
        }
    }

    /// Whether `path` lists the joints that lead from `base` to `end`, each
    /// joint's child being the next joint's parent. The empty path leads
    /// from a link to itself.
    pub open spec fn is_forward_path(self, base: int, end: int, path: Seq<int>) -> bool
        decreases path.len(),
    {
        if path.len() == 0 {
            base == end
        } else {
            &&& self.leads_to(path.last(), end)
            &&& self.is_forward_path(base, self.joints[path.last()].parent, path.drop_last())
        }
    }

    /// Whether the child of the joint at `i` in `path` is the parent of the
    /// joint behind it.
    pub open spec fn joined(self, path: Seq<int>, i: int) -> bool {
        self.joints[path[i]].child == self.joints[path[i + 1]].parent
    }

    /// The path from `base` to `end` that is found by going from `end` to
    /// its parent, and on, for at most `fuel` steps.
    pub open spec fn climb(self, base: int, end: int, fuel: nat) -> Option<Seq<int>>
        decreases fuel,
    {
        if end == base {
            Some(Seq::empty())
        } else if !self.has_parent(end) || fuel == 0 {
            None
        } else {
            let j = self.parent_joint(end);
            match self.climb(base, self.joints[j].parent, (fuel - 1) as nat) {
                Some(q) => Some(q.push(j)),
                None => None,
            }
        }
    }
}

/// Where no link is the child of two joints, a joint that leads to a link is
/// that link's parent joint.
pub proof fn lemma_parent_joint(m: ModelView, j: int, link: int)
    requires
        m.single_parents(),
        m.leads_to(j, link),
    ensures
        m.has_parent(link),
        m.parent_joint(link) == j,
{
    let k = m.parent_joint(link);
    assert(m.leads_to(k, link));
    if k < j {
        assert(m.joints[k].child != m.joints[j].child);
    } else if j < k {
        assert(m.joints[j].child != m.joints[k].child);
    }
}

/// A forward path can be walked from its first joint: it starts at `base`,
/// ends at `end`, stays within the model's joints, and each joint's child is
/// the next joint's parent.
pub proof fn lemma_forward_path_links(m: ModelView, base: int, end: int, path: Seq<int>)
    requires
        m.is_forward_path(base, end, path),
    ensures
        path.len() == 0 ==> base == end,
        path.len() > 0 ==> m.joints[path[0]].parent == base && m.joints[path.last()].child == end,
        forall|i: int| 0 <= i < path.len() ==> 0 <= #[trigger] path[i] < m.joints.len(),
        forall|i: int| 0 <= i < path.len() - 1 ==> #[trigger] m.joined(path, i),
    decreases path.len(),
{
    if path.len() > 0 {
        let init = path.drop_last();
        lemma_forward_path_links(m, base, m.joints[path.last()].parent, init);
        assert forall|i: int| 0 <= i < path.len() implies 0 <= #[trigger] path[i]
            < m.joints.len() by {
            if i < init.len() {
                assert(path[i] == init[i]);
            }
        }
        assert forall|i: int| 0 <= i < path.len() - 1 implies #[trigger] m.joined(path, i) by {
            assert(path[i] == init[i]);
            if i < init.len() - 1 {
                assert(m.joined(init, i));
                assert(path[i + 1] == init[i + 1]);
            }
        }
        if init.len() > 0 {
            assert(path[0] == init[0]);
        }
    }
}

/// A forward path goes on by one joint at its start.
pub proof fn lemma_forward_path_prepend(m: ModelView, j: int, base: int, end: int, path: Seq<int>)
    requires
        m.leads_to(j, base),
        m.is_forward_path(base, end, path),
    ensures
        m.is_forward_path(m.joints[j].parent, end, seq![j] + path),
    decreases path.len(),
{
    let whole = seq![j] + path;
    if path.len() == 0 {
        assert(whole.drop_last() =~= Seq::<int>::empty());
        assert(whole.last() == j);
        assert(m.is_forward_path(m.joints[j].parent, m.joints[j].parent, whole.drop_last()));
    } else {
        lemma_forward_path_prepend(m, j, base, m.joints[path.last()].parent, path.drop_last());
        assert(whole.drop_last() =~= seq![j] + path.drop_last());
        assert(whole.last() == path.last());
    }
}

/// A link with a path of one joint or more from itself to itself never
/// reaches a link without parent.
pub proof fn lemma_cycle_not_rooted(m: ModelView, link: int, path: Seq<int>, fuel: nat)
    requires
        m.single_parents(),
        m.is_forward_path(link, link, path),
        path.len() > 0,
    ensures
        !m.rooted(link, fuel),
    decreases fuel,
{
    let j = path.last();
    lemma_parent_joint(m, j, link);
    if fuel > 0 {
        let up = m.joints[j].parent;
        lemma_forward_path_prepend(m, j, link, up, path.drop_last());
        lemma_cycle_not_rooted(m, up, seq![j] + path.drop_last(), (fuel - 1) as nat);
    }
}

/// What the climb finds is a forward path.
pub proof fn lemma_climb_sound(m: ModelView, base: int, end: int, fuel: nat)
    requires
        m.climb(base, end, fuel) is Some,
    ensures
        m.is_forward_path(base, end, m.climb(base, end, fuel).unwrap()),
    decreases fuel,
{
    if end != base {
        let j = m.parent_joint(end);
        assert(m.leads_to(j, end));
        let up = m.joints[j].parent;
        lemma_climb_sound(m, base, up, (fuel - 1) as nat);
        let q = m.climb(base, up, (fuel - 1) as nat).unwrap();
        assert(q.push(j).drop_last() =~= q);
        assert(q.push(j).last() == j);
    }
}

/// The climb finds every forward path to a link that is rooted within the
/// fuel given.
pub proof fn lemma_climb_complete(m: ModelView, base: int, end: int, path: Seq<int>, fuel: nat)
    requires
        m.single_parents(),
        m.rooted(end, fuel),
        m.is_forward_path(base, end, path),
    ensures
        m.climb(base, end, fuel) == Some(path),
    decreases fuel,
{
    if end == base {
        if path.len() > 0 {
            lemma_cycle_not_rooted(m, end, path, fuel);
        }
        assert(path =~= Seq::<int>::empty());
    } else {
        let j = path.last();
        lemma_parent_joint(m, j, end);
        lemma_climb_complete(m, base, m.joints[j].parent, path.drop_last(), (fuel - 1) as nat);
        assert(path.drop_last().push(j) =~= path);
    }
}

/// In a well-formed model there is at most one forward path from one link to
/// another.
pub proof fn lemma_forward_path_unique(
    m: ModelView,
    base: int,
    end: int,
    first: Seq<int>,
    second: Seq<int>,
)
    requires
        m.wf(),
        0 <= end < m.links.len(),
        m.is_forward_path(base, end, first),
        m.is_forward_path(base, end, second),
    ensures
        first == second,
{
    lemma_climb_complete(m, base, end, first, m.links.len());
    lemma_climb_complete(m, base, end, second, m.links.len());
}

/// In a well-formed model no link is its own ancestor: a forward path from a
/// link to itself has no joint.
pub proof fn lemma_no_cycle(m: ModelView, link: int, path: Seq<int>)
    requires
        m.wf(),
        0 <= link < m.links.len(),
        m.is_forward_path(link, link, path),
    ensures
        path.len() == 0,
{
    if path.len() > 0 {
        lemma_cycle_not_rooted(m, link, path, m.links.len());
    }
}

/// Two forward paths, the second starting where the first ends, make one.
pub proof fn lemma_forward_path_concat(
    m: ModelView,
    base: int,
    mid: int,
    end: int,
    first: Seq<int>,
    second: Seq<int>,
)
    requires
        m.is_forward_path(base, mid, first),
        m.is_forward_path(mid, end, second),
    ensures
        m.is_forward_path(base, end, first + second),
    decreases second.len(),
{
    if second.len() == 0 {
        assert(first + second =~= first);
    } else {
        let up = m.joints[second.last()].parent;
        lemma_forward_path_concat(m, base, mid, up, first, second.drop_last());
        assert((first + second).drop_last() =~= first + second.drop_last());
        assert((first + second).last() == second.last());
    }
}

/// In a well-formed model a path cannot be walked back: where one joint or
/// more leads from `base` to `end`, no forward path leads from `end` to
/// `base`.
pub proof fn lemma_no_way_back(m: ModelView, base: int, end: int, path: Seq<int>, back: Seq<int>)
    requires
        m.wf(),
        0 <= end < m.links.len(),
        m.is_forward_path(base, end, path),
        path.len() > 0,
    ensures
        !m.is_forward_path(end, base, back),
{
    if m.is_forward_path(end, base, back) {
        lemma_forward_path_concat(m, end, base, end, back, path);
        lemma_no_cycle(m, end, back + path);
    }
}

/// What `position_of` finds is a position of the name, and it finds the
/// name wherever the name stands.
pub proof fn lemma_position_of(names: Seq<Seq<u8>>, name: Seq<u8>)
    ensures
        match position_of(names, name) {
            Some(i) => is_first_position(names, name, i),
            None => forall|k: int| 0 <= k < names.len() ==> #[trigger] names[k] != name,
        },
{
    if position_of(names, name) is None {
        assert forall|k: int| 0 <= k < names.len() implies #[trigger] names[k] != name by {
            if names[k] == name {
                lemma_first_position_exists(names, name, k);
            }
        }
    }
}

/// Where a name stands at `k`, it has a first position.
proof fn lemma_first_position_exists(names: Seq<Seq<u8>>, name: Seq<u8>, k: int)
    requires
        0 <= k < names.len(),
        names[k] == name,
    ensures
        exists|i: int| is_first_position(names, name, i),
    decreases k,
{
    if exists|j: int| 0 <= j < k && names[j] == name {
        let j = choose|j: int| 0 <= j < k && names[j] == name;
        lemma_first_position_exists(names, name, j);
    } else {
        assert(is_first_position(names, name, k));
    }
}

/// Among distinct names each is found where it stands.
pub proof fn lemma_position_of_distinct(names: Seq<Seq<u8>>, i: int)
    requires
        distinct(names),
        0 <= i < names.len(),
    ensures
        position_of(names, names[i]) == Some(i),
{
    lemma_position_of(names, names[i]);
    let found = position_of(names, names[i]);
    assert(found is Some);
    let j = found.unwrap();
    if j < i {
        assert(names[j] != names[i]);
    } else if i < j {
        assert(names[i] != names[j]);
    }
}

/// A model has no defect exactly when it is well formed.
pub proof fn lemma_defect_none(m: ModelView)
    ensures
        m.defect() is None <==> m.wf(),
{
}

/// The model made of these links and joints.
pub open spec fn model_of(links: Seq<Vec<u8>>, joints: Seq<Joint>) -> ModelView {
    ModelView { links: names_view(links), joints: joints_view(joints) }
}

/// The positions of a list, as integers.
pub open spec fn ids_view(ids: Seq<usize>) -> Seq<int> {
    Seq::new(ids.len(), |i: int| ids[i] as int)
}

/// Whether `parents` says of each link which joint leads to it.
pub open spec fn parents_match(m: ModelView, parents: Seq<Option<usize>>) -> bool {
    &&& parents.len() == m.links.len()
    &&& forall|l: int|
        0 <= l < m.links.len() ==> match #[trigger] parents[l] {
            Some(j) => m.leads_to(j as int, l),
            None => !m.has_parent(l),
        }
}

/// The first position of `name` in `names`.
pub fn find_name(names: &Vec<Vec<u8>>, name: &[u8]) -> (r: Option<usize>)
    ensures
        r matches Some(i) ==> position_of(names_view(names@), name@) == Some(i as int),
        r is None <==> position_of(names_view(names@), name@) is None,
{
    let ghost view = names_view(names@);
    let mut i: usize = 0;
    while i < names.len()
        invariant
            i <= names@.len(),
            view == names_view(names@),
            forall|k: int| 0 <= k < i ==> #[trigger] view[k] != name@,
        decreases names@.len() - i,
    {
        if bytes_eq(names[i].as_slice(), name) {
            proof {
                assert(is_first_position(view, name@, i as int));
                let c = choose|c: int| is_first_position(view, name@, c);
                assert(view[c] == name@ && view[i as int] == name@);
            }
            return Some(i);
        }
        i += 1;
    }
    proof {
        assert forall|c: int| !is_first_position(view, name@, c) by {
            if 0 <= c < view.len() {
                assert(view[c] != name@);
            }
        }
    }
    None
}

/// Whether no two of `names` are equal.
pub fn all_distinct(names: &Vec<Vec<u8>>) -> (r: bool)
    ensures
        r == distinct(names_view(names@)),
{
    let ghost view = names_view(names@);
    let mut b: usize = 0;
    while b < names.len()
        invariant
            b <= names@.len(),
            view == names_view(names@),
            forall|x: int, y: int| 0 <= x < y < b ==> #[trigger] view[x] != #[trigger] view[y],
        decreases names@.len() - b,
    {
        let mut a: usize = 0;
        while a < b
            invariant
                a <= b < names@.len(),
                view == names_view(names@),
                forall|x: int| 0 <= x < a ==> #[trigger] view[x] != view[b as int],
            decreases b - a,
        {
            if bytes_eq(names[a].as_slice(), names[b].as_slice()) {
                proof {
                    assert(view[a as int] == view[b as int]);
                }
                return false;
            }
            a += 1;
        }
        b += 1;
    }
    true
}

fn check_links_resolve(links: &Vec<Vec<u8>>, joints: &Vec<Joint>) -> (r: bool)
    ensures
        r == model_of(links@, joints@).links_resolve(),
{
    let ghost m = model_of(links@, joints@);
    let mut j: usize = 0;
    while j < joints.len()
        invariant
            j <= joints@.len(),
            m == model_of(links@, joints@),
            forall|k: int|
                0 <= k < j ==> 0 <= (#[trigger] m.joints[k]).parent < m.links.len() && 0
                    <= m.joints[k].child < m.links.len(),
        decreases joints@.len() - j,
    {
        if joints[j].parent >= links.len() || joints[j].child >= links.len() {
            proof {
                let bad = m.joints[j as int];
                assert(!(bad.parent < m.links.len() && bad.child < m.links.len()));
            }
            return false;
        }
        j += 1;
    }
    true
}

fn check_numerals(links: &Vec<Vec<u8>>, joints: &Vec<Joint>) -> (r: bool)
    ensures
        r == model_of(links@, joints@).numerals_valid(),
{
    let ghost m = model_of(links@, joints@);
    let mut j: usize = 0;
    while j < joints.len()
        invariant
            j <= joints@.len(),
            m == model_of(links@, joints@),
            forall|k: int| 0 <= k < j ==> (#[trigger] m.joints[k]).wf(),
        decreases joints@.len() - j,
    {
        if !joints[j].is_valid() {
            proof {
                assert(!m.joints[j as int].wf());
            }
            return false;
        }
        j += 1;
    }
    true
}

fn names_of(links: &Vec<Vec<u8>>, joints: &Vec<Joint>) -> (r: Vec<Vec<u8>>)
    ensures
        names_view(r@) == model_of(links@, joints@).joint_names(),
{
    let ghost m = model_of(links@, joints@);
    let mut names: Vec<Vec<u8>> = Vec::new();
    let mut j: usize = 0;
    while j < joints.len()
        invariant
            j <= joints@.len(),
            names@.len() == j,
            m == model_of(links@, joints@),
            forall|k: int| 0 <= k < j ==> (#[trigger] names@[k])@ == m.joints[k].name,
        decreases joints@.len() - j,
    {
        names.push(copy_bytes(joints[j].name.as_slice()));
        j += 1;
    }
    proof {
        assert(names_view(names@) =~= m.joint_names());
    }
    names
}

/// The table that says of each link which joint leads to it; `None` where a
/// link is the child of two joints.
fn parent_table(links: &Vec<Vec<u8>>, joints: &Vec<Joint>) -> (r: Option<Vec<Option<usize>>>)
    requires
        model_of(links@, joints@).links_resolve(),
    ensures
        r is Some <==> model_of(links@, joints@).single_parents(),
        r matches Some(t) ==> parents_match(model_of(links@, joints@), t@),
{
    let ghost m = model_of(links@, joints@);
    let mut table: Vec<Option<usize>> = Vec::new();
    let mut l: usize = 0;
    while l < links.len()
        invariant
            l <= links@.len(),
            table@.len() == l,
            forall|k: int| 0 <= k < l ==> #[trigger] table@[k] is None,
        decreases links@.len() - l,
    {
        table.push(None);
        l += 1;
    }
    let mut j: usize = 0;
    while j < joints.len()
        invariant
            j <= joints@.len(),
            m == model_of(links@, joints@),
            m.links_resolve(),
            table@.len() == links@.len(),
            forall|a: int, b: int|
                0 <= a < b < j ==> (#[trigger] m.joints[a]).child != (#[trigger] m.joints[b]).child,
            forall|k: int|
                0 <= k < table@.len() && (#[trigger] table@[k]) is Some ==> table@[k].unwrap() < j
                    && m.joints[table@[k].unwrap() as int].child == k,
            forall|k: int, i: int|
                0 <= k < table@.len() && (#[trigger] table@[k]) is None && 0 <= i < j ==> (
                #[trigger] m.joints[i]).child != k,
        decreases joints@.len() - j,
    {
        let ghost at = m.joints[j as int];
        let child = joints[j].child;
        assert(at.child == child);
        match table[child] {
            Some(i) => {
                proof {
                    assert(m.joints[i as int].child == m.joints[j as int].child);
                }
                return None;
            },
            None => {},
        }
        table.set(child, Some(j));
        j += 1;
    }
    proof {
        assert forall|k: int| 0 <= k < m.links.len() implies match #[trigger] table@[k] {
            Some(i) => m.leads_to(i as int, k),
            None => !m.has_parent(k),
        } by {
            if table@[k] is None {
                assert forall|i: int| !m.leads_to(i, k) by {
                    if 0 <= i < m.joints.len() {
                        assert(m.joints[i].child != k);
                    }
                }
            }
        }
    }
    Some(table)
}

/// Whether going up from `link` ends within `fuel` steps.
fn is_rooted(
    links: &Vec<Vec<u8>>,
    joints: &Vec<Joint>,
    table: &Vec<Option<usize>>,
    link: usize,
    fuel: usize,
) -> (r: bool)
    requires
        model_of(links@, joints@).links_resolve(),
        model_of(links@, joints@).single_parents(),
        parents_match(model_of(links@, joints@), table@),
        link < links@.len(),
    ensures
        r == model_of(links@, joints@).rooted(link as int, fuel as nat),
{
    let ghost m = model_of(links@, joints@);
    let mut cur: usize = link;
    let mut left: usize = fuel;
    loop
        invariant
            m == model_of(links@, joints@),
            m.links_resolve(),
            m.single_parents(),
            parents_match(m, table@),
            cur < links@.len(),
            m.rooted(link as int, fuel as nat) == m.rooted(cur as int, left as nat),
        decreases left,
    {
        match table[cur] {
            None => {
                return true;
            },
            Some(j) => {
                proof {
                    lemma_parent_joint(m, j as int, cur as int);
                }
                if left == 0 {
                    return false;
                }
                let ghost at = m.joints[j as int];
                cur = joints[j].parent;
                assert(at.parent == cur);
                left -= 1;
            },
        }
    }
}

fn check_all_rooted(links: &Vec<Vec<u8>>, joints: &Vec<Joint>, table: &Vec<Option<usize>>) -> (r:
    bool)
    requires
        model_of(links@, joints@).links_resolve(),
        model_of(links@, joints@).single_parents(),
        parents_match(model_of(links@, joints@), table@),
    ensures
        r == model_of(links@, joints@).all_rooted(),
{
    let ghost m = model_of(links@, joints@);
    let n = links.len();
    let mut l: usize = 0;
    while l < n
        invariant
            l <= n == links@.len(),
            m == model_of(links@, joints@),
            m.links_resolve(),
            m.single_parents(),
            parents_match(m, table@),
            forall|k: int| 0 <= k < l ==> m.rooted(k, n as nat),
        decreases n - l,
    {
        if !is_rooted(links, joints, table, l, n) {
            return false;
        }
        l += 1;
    }
    true
}

/// The links and joints of a description: a tree, or several, since each
/// link is the child of at most one joint and none is its own ancestor.
/// It is made once and does not change.
#[derive(Debug)]
pub struct RobotModel {
    links: Vec<Vec<u8>>,
    joints: Vec<Joint>,
    parents: Vec<Option<usize>>,
}

impl View for RobotModel {
    type V = ModelView;

    closed spec fn view(&self) -> ModelView {
        model_of(self.links@, self.joints@)
    }
}

impl RobotModel {
    #[verifier::type_invariant]
    spec fn inv(&self) -> bool {
        self@.wf() && parents_match(self@, self.parents@)
    }

    /// Makes a model of links and joints, if they form one: `Ok` exactly when
    /// they are well formed, else the first defect.
    pub fn new(links: Vec<Vec<u8>>, joints: Vec<Joint>) -> (r: Result<RobotModel, ParseError>)
        ensures
            match r {
                Ok(m) => m@ == model_of(links@, joints@) && m@.wf(),
                Err(e) => model_of(links@, joints@).defect() == Some(e),
            },
    {
        if !check_links_resolve(&links, &joints) {
            return Err(ParseError::UndeclaredLink);
        }
        if !check_numerals(&links, &joints) {
            return Err(ParseError::InvalidNumber);
        }
        if !all_distinct(&links) {
            return Err(ParseError::DuplicateLink);
        }
        let names = names_of(&links, &joints);
        if !all_distinct(&names) {
            return Err(ParseError::DuplicateJoint);
        }
        match parent_table(&links, &joints) {
            None => Err(ParseError::NotATree),
            Some(parents) => {
                if !check_all_rooted(&links, &joints, &parents) {
                    return Err(ParseError::NotATree);
                }
                Ok(RobotModel { links, joints, parents })
            },
        }
    }

    /// The names of the links. A link's position in this list is what a
    /// joint's `parent` and `child` hold.
    pub fn links(&self) -> (r: &Vec<Vec<u8>>)
        ensures
            names_view(r@) == self@.links,
            self@.wf(),
    {
        proof {
            use_type_invariant(self);
        }
        &self.links
    }

    /// The joints, in the order of the description.
    pub fn joints(&self) -> (r: &Vec<Joint>)
        ensures
            joints_view(r@) == self@.joints,
            self@.wf(),
    {
        proof {
            use_type_invariant(self);
        }
        &self.joints
    }

    /// The position of the link of this name.
    pub fn link_position(&self, name: &[u8]) -> (r: Option<usize>)
        ensures
            r matches Some(i) ==> position_of(self@.links, name@) == Some(i as int),
            r is None <==> position_of(self@.links, name@) is None,
    {
        find_name(&self.links, name)
    }

    /// The joints that lead from the link at `base` to the link at `end`,
    /// going from parent to child: `None` exactly when there is no such path.
    pub fn path_between(&self, base: usize, end: usize) -> (r: Option<Vec<usize>>)
        ensures
            r matches Some(p) ==> self@.is_forward_path(base as int, end as int, ids_view(p@)),
            r is None <==> forall|p: Seq<int>| !self@.is_forward_path(base as int, end as int, p),
    {
        proof {
            use_type_invariant(self);
        }
        let ghost m = self@;
        let n = self.links.len();
        let mut path: Vec<usize> = Vec::new();
        if end >= n {
            if base == end {
                assert(ids_view(path@) =~= Seq::<int>::empty());
                assert(m.is_forward_path(base as int, end as int, ids_view(path@)));
                return Some(path);
            }
            proof {
                assert forall|p: Seq<int>| !m.is_forward_path(base as int, end as int, p) by {
                    if p.len() > 0 && m.leads_to(p.last(), end as int) {
                        assert(m.joints[p.last()].child < m.links.len());
                    }
                }
            }
            return None;
        }
        let mut cur: usize = end;
        let mut left: usize = n;
        assert(m.climb(base as int, cur as int, left as nat) is Some ==> m.climb(
            base as int,
            cur as int,
            left as nat,
        ).unwrap() + ids_view(path@) =~= m.climb(base as int, end as int, n as nat).unwrap());
        loop
            invariant
                m == self@,
                m.wf(),
                parents_match(m, self.parents@),
                n == m.links.len(),
                end < n,
                cur < n,
                m.rooted(cur as int, left as nat),
                m.climb(base as int, end as int, n as nat) == match m.climb(
                    base as int,
                    cur as int,
                    left as nat,
                ) {
                    Some(q) => Some(q + ids_view(path@)),
                    None => None,
                },
            decreases left,
        {
            if cur == base {
                proof {
                    assert(Seq::<int>::empty() + ids_view(path@) =~= ids_view(path@));
                    lemma_climb_sound(m, base as int, end as int, n as nat);
                }
                return Some(path);
            }
            match self.parents[cur] {
                None => {
                    proof {
                        assert forall|p: Seq<int>|
                            !m.is_forward_path(base as int, end as int, p) by {
                            if m.is_forward_path(base as int, end as int, p) {
                                lemma_climb_complete(m, base as int, end as int, p, n as nat);
                            }
                        }
                    }
                    return None;
                },
                Some(j) => {
                    proof {
                        lemma_parent_joint(m, j as int, cur as int);
                    }
                    let ghost at = m.joints[j as int];
                    let ghost before = ids_view(path@);
                    let ghost was = cur;
                    let ghost had = left;
                    path.insert(0, j);
                    cur = self.joints[j].parent;
                    left -= 1;
                    proof {
                        assert(at.parent == cur);
                        assert(ids_view(path@) =~= seq![j as int] + before);
                        let up = m.climb(base as int, cur as int, left as nat);
                        if up is Some {
                            assert(m.climb(base as int, was as int, had as nat) == Some(
                                up.unwrap().push(j as int),
                            ));
                            assert(up.unwrap().push(j as int) + before =~= up.unwrap() + ids_view(
                                path@,
                            ));
                        }
                    }
                },
            }
        }
    }
}

} // verus!
