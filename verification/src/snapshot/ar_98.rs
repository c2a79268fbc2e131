//! A snapshot object built from lattice agreement, after Attiya and Rachman.
use crate::register::{MutexRegister, Register};
use crate::snapshot::{ProcessId, Snapshot};
use vstd::arithmetic::div_mod::lemma_div_by_multiple;
use vstd::arithmetic::power2::{
    lemma2_to64,
    lemma_pow2_adds,
    lemma_pow2_pos,
    lemma_pow2_strictly_increases,
    lemma_pow2_unfold,
    pow2,
};
use vstd::bits::lemma_u32_shr_is_div;
use vstd::prelude::*;

verus! {

/// The contents of one component of a snapshot object.
#[derive(Clone, Copy)]
struct Component<T: Copy + Default> {
    value: T,
    sequence: u32,
    counter: u32,
}

impl<T: Copy + Default> Component<T> {
    /// The component holds the default value and records no operation.
    pub closed spec fn is_initial(&self) -> bool {
        &&& call_ensures(T::default, (), self.value)
        &&& self.sequence == 0
        &&& self.counter == 0
    }
}

impl<T: Copy + Default> Default for Component<T> {
    fn default() -> (r: Self)
        ensures
            r.is_initial(),
    {
        Self { value: T::default(), sequence: 0, counter: 0 }
    }
}

/// The number of operations recorded in a sequence of components.
spec fn total<T: Copy + Default>(cs: Seq<Component<T>>) -> int
    decreases cs.len(),
{
    if cs.len() == 0 {
        0
    } else {
        total(cs.drop_last()) + cs.last().counter
    }
}

/// The total of a prefix is at most the total of the whole.
proof fn lemma_total_prefix<T: Copy + Default>(cs: Seq<Component<T>>, k: int)
    requires
        0 <= k <= cs.len(),
    ensures
        0 <= total(cs.take(k)) <= total(cs),
        k < cs.len() ==> total(cs.take(k + 1)) == total(cs.take(k)) + cs[k].counter,
    decreases cs.len(),
{
    if cs.len() > 0 {
        if k < cs.len() {
            lemma_total_prefix(cs.drop_last(), k);
            assert(cs.take(k) =~= cs.drop_last().take(k));
            if k + 1 < cs.len() {
                lemma_total_prefix(cs.drop_last(), k + 1);
                assert(cs.take(k + 1) =~= cs.drop_last().take(k + 1));
            } else {
                assert(cs.take(k + 1) =~= cs);
            }
            assert(cs.take(k + 1).drop_last() =~= cs.take(k));
        } else {
            assert(cs.take(k) =~= cs);
            lemma_total_prefix(cs.drop_last(), k - 1);
        }
    }
}

/// Each counter is part of the total, and counting one more operation in a
/// component counts one more in the total.
proof fn lemma_total_update<T: Copy + Default>(cs: Seq<Component<T>>, i: int, c: Component<T>)
    requires
        0 <= i < cs.len(),
    ensures
        cs[i].counter <= total(cs),
        total(cs.update(i, c)) == total(cs) - cs[i].counter + c.counter,
    decreases cs.len(),
{
    lemma_total_prefix(cs, 0);
    if i < cs.len() - 1 {
        lemma_total_update(cs.drop_last(), i, c);
        assert(cs.update(i, c).drop_last() =~= cs.drop_last().update(i, c));
    } else {
        assert(cs.update(i, c).drop_last() =~= cs.drop_last());
        lemma_total_prefix(cs.drop_last(), 0);
    }
}

/// A view of all components of a snapshot object.
#[derive(Clone, Copy)]
struct ComponentView<T: Copy + Default, const N: usize> {
    components: [Component<T>; N],
}

/// The component `i` of the view, among `views`, with the greatest sequence
/// number; of several, the last.
spec fn latest<T: Copy + Default, const N: usize>(views: Seq<ComponentView<T, N>>, i: int) -> Component<T>
    recommends
        views.len() > 0,
    decreases views.len(),
{
    if views.len() <= 1 {
        views[0].components@[i]
    } else {
        let m = latest(views.drop_last(), i);
        if views.last().components@[i].sequence >= m.sequence {
            views.last().components@[i]
        } else {
            m
        }
    }
}

/// The latest component is one of the views' own, and no view holds a
/// component with a greater sequence number.
proof fn lemma_latest<T: Copy + Default, const N: usize>(views: Seq<ComponentView<T, N>>, i: int)
    requires
        views.len() > 0,
    ensures
        exists|j: int| 0 <= j < views.len() && latest(views, i) == #[trigger] views[j].components@[i],
        forall|j: int|
            0 <= j < views.len() ==> (#[trigger] views[j].components@[i]).sequence <= latest(
                views,
                i,
            ).sequence,
    decreases views.len(),
{
    if views.len() > 1 {
        let rest = views.drop_last();
        lemma_latest(rest, i);
        let j0 = choose|j: int| 0 <= j < rest.len() && latest(rest, i) == #[trigger] rest[j].components@[i];
        assert(views[j0] == rest[j0]);
        let last = views.len() - 1;
        assert forall|j: int| 0 <= j < views.len() implies (
        #[trigger] views[j].components@[i]).sequence <= latest(views, i).sequence by {
            if j < last {
                assert(views[j] == rest[j]);
            }
        }
        if views.last().components@[i].sequence >= latest(rest, i).sequence {
            assert(latest(views, i) == views[last].components@[i]);
        } else {
            assert(latest(views, i) == views[j0].components@[i]);
        }
    } else {
        assert(latest(views, i) == views[0].components@[i]);
    }
}

impl<T: Copy + Default, const N: usize> ComponentView<T, N> {
    /// Every component of the view is initial.
    pub closed spec fn is_initial(&self) -> bool {
        forall|k: int| 0 <= k < N ==> (#[trigger] self.components@[k]).is_initial()
    }

    /// The values stored in the components of the view.
    spec fn values_of(&self) -> Seq<T> {
        Seq::new(N as nat, |k: int| self.components@[k].value)
    }

    /// Returns the union of an array of views.
    ///
    /// The union of an array of views V_1...V_N is a new view V where each
    /// component V[i] is equal to the component V_j[i] with maximal _sequence_ field.
    fn union_many(views: [ComponentView<T, N>; N]) -> (r: ComponentView<T, N>)
        ensures
            forall|i: int| 0 <= i < N ==> #[trigger] r.components@[i] == latest(views@, i),
    {
        let mut components: [Component<T>; N] = [Component::default(); N];
        let mut i: usize = 0;
        while i < N
            invariant
                i <= N,
                components@.len() == N,
                forall|k: int| 0 <= k < i ==> #[trigger] components@[k] == latest(views@, k),
            decreases N - i,
        {
            let mut max = views[0].components[i];
            let mut j: usize = 1;
            while j < N
                invariant
                    i < N,
                    1 <= j <= N,
                    max == latest(views@.take(j as int), i as int),
                decreases N - j,
            {
                assert(views@.take(j + 1).drop_last() =~= views@.take(j as int));
                if views[j].components[i].sequence >= max.sequence {
                    max = views[j].components[i];
                }
                j = j + 1;
            }
            assert(views@.take(N as int) =~= views@);
            components[i] = max;
            i = i + 1;
        }
        ComponentView { components }
    }

    /// Returns the size of the view, which is the number of operations that were
    /// performed on the snapshot object before the view was obtained.
    ///
    /// Intuitively, the size of the view corresponds to the amount of knowledge
    /// that the view contains.
    fn size(&self) -> (r: u32)
        requires
            total(self.components@) <= u32::MAX,
        ensures
            r == total(self.components@),
    {
        let mut sum: u32 = 0;
        let mut k: usize = 0;
        while k < N
            invariant
                k <= N,
                self.components@.len() == N,
                total(self.components@) <= u32::MAX,
                sum == total(self.components@.take(k as int)),
            decreases N - k,
        {
            proof {
                lemma_total_prefix(self.components@, k as int);
                lemma_total_prefix(self.components@, k + 1);
            }
            sum = sum + self.components[k].counter;
            k = k + 1;
        }
        assert(self.components@.take(N as int) =~= self.components@);
        sum
    }

    /// Returns an array of values stored in the components of the view.
    fn values(&self) -> (r: [T; N])
        ensures
            r@ == self.values_of(),
    {
        let mut r: [T; N] = [T::default(); N];
        let mut k: usize = 0;
        while k < N
            invariant
                k <= N,
                r@.len() == N,
                forall|j: int| 0 <= j < k ==> #[trigger] r@[j] == self.components@[j].value,
            decreases N - k,
        {
            r[k] = self.components[k].value;
            k = k + 1;
        }
        assert(r@ =~= self.values_of());
        r
    }
}

impl<T: Copy + Default, const N: usize> Default for ComponentView<T, N> {
    fn default() -> (r: Self)
        ensures
            r.is_initial(),
    {
        let c = Component::default();
        let components: [Component<T>; N] = vstd::array::array_fill_for_copy_types(c);
        assert forall|k: int| 0 <= k < N implies (#[trigger] components@[k]).is_initial() by {
            assert(components@[k] == c);
        }
        Self { components }
    }
}


/// The default value of `T` is a single value.
pub open spec fn default_is_unique<T: Default>() -> bool {
    forall|x: T, y: T|
        call_ensures(T::default, (), x) && call_ensures(T::default, (), y) ==> x == y
}

/// `m` is a power of two.
pub open spec fn is_power_of_two(m: int) -> bool {
    exists|h: nat| pow2(h) == m
}

/// A component is well formed: it counts one operation per sequence number,
/// and holds the default value until it is first written.
spec fn component_ok<T: Copy + Default>(c: Component<T>) -> bool {
    &&& c.counter == c.sequence
    &&& c.sequence == 0 ==> call_ensures(T::default, (), c.value)
}

/// Every component of `cs` is well formed.
spec fn components_ok<T: Copy + Default>(cs: Seq<Component<T>>) -> bool {
    forall|k: int| 0 <= k < cs.len() ==> component_ok(#[trigger] cs[k])
}

/// Component `a`, kept by some classifier, is no newer than the current
/// component `c`, and equals it if it is as new and was ever written.
spec fn dominated<T: Copy + Default>(a: Component<T>, c: Component<T>) -> bool {
    &&& component_ok(a)
    &&& a.sequence <= c.sequence
    &&& a.sequence == c.sequence && c.sequence > 0 ==> a == c
}

/// `later` holds each component of `earlier`, or a newer one.
spec fn advances<T: Copy + Default>(earlier: Seq<Component<T>>, later: Seq<Component<T>>) -> bool {
    &&& earlier.len() == later.len()
    &&& forall|k: int|
        0 <= k < earlier.len() ==> #[trigger] earlier[k].sequence <= later[k].sequence && (
        earlier[k].sequence == later[k].sequence && later[k].sequence > 0 ==> earlier[k]
            == later[k])
}

/// Every component of `v` is dominated by the corresponding one of `cs`.
spec fn view_dominated<T: Copy + Default, const N: usize>(
    v: ComponentView<T, N>,
    cs: Seq<Component<T>>,
) -> bool {
    forall|k: int| 0 <= k < N ==> dominated(#[trigger] v.components@[k], cs[k])
}

/// The components of the union of `views`.
spec fn union_of<T: Copy + Default, const N: usize>(views: Seq<ComponentView<T, N>>) -> Seq<
    Component<T>,
> {
    Seq::new(N as nat, |k: int| latest(views, k))
}

/// Equal counters give equal totals.
proof fn lemma_total_eq<T: Copy + Default>(a: Seq<Component<T>>, b: Seq<Component<T>>)
    requires
        a.len() == b.len(),
        forall|k: int| 0 <= k < a.len() ==> #[trigger] a[k].counter == b[k].counter,
    ensures
        total(a) == total(b),
    decreases a.len(),
{
    if a.len() > 0 {
        lemma_total_eq(a.drop_last(), b.drop_last());
    }
}

/// When one view among dominated views holds the current components, their
/// union holds components as new as the current ones.
proof fn lemma_union<T: Copy + Default, const N: usize>(
    views: Seq<ComponentView<T, N>>,
    i: int,
    cs: Seq<Component<T>>,
)
    requires
        views.len() == N,
        cs.len() == N,
        0 <= i < N,
        views[i].components@ == cs,
        components_ok(cs),
        forall|j: int| 0 <= j < N ==> view_dominated(#[trigger] views[j], cs),
    ensures
        union_of(views).len() == N,
        components_ok(union_of(views)),
        advances(cs, union_of(views)),
        advances(union_of(views), cs),
        total(union_of(views)) == total(cs),
{
    let u = union_of(views);
    assert forall|k: int| 0 <= k < N implies dominated(#[trigger] u[k], cs[k]) && u[k].sequence
        == cs[k].sequence by {
        lemma_latest(views, k);
        let j = choose|j: int| 0 <= j < views.len() && latest(views, k) == #[trigger] views[j].components@[k];
        assert(view_dominated(views[j], cs));
        assert(views[i].components@[k] == cs[k]);
    }
    lemma_total_eq(u, cs);
}

/// Dominance carries over to components that advance.
proof fn lemma_view_advances<T: Copy + Default, const N: usize>(
    v: ComponentView<T, N>,
    cs: Seq<Component<T>>,
    later: Seq<Component<T>>,
)
    requires
        cs.len() == N,
        view_dominated(v, cs),
        advances(cs, later),
    ensures
        view_dominated(v, later),
{
    assert forall|k: int| 0 <= k < N implies dominated(#[trigger] v.components@[k], later[k]) by {
        assert(dominated(v.components@[k], cs[k]));
        assert(cs[k].sequence <= later[k].sequence);
    }
}

/// Groups for classifying processes based on their view of the components
/// of a snapshot object.
enum Group<T: Copy + Default, const N: usize> {
    Primary(ComponentView<T, N>),
    Secondary,
}

/// An object for classifying processes into two disjoint groups and updating
/// their knowledge of the contents of a snapshot objects components.
struct Classifier<T: Copy + Default, const N: usize> {
    registers: Vec<MutexRegister<ComponentView<T, N>>>,
}

impl<T: Copy + Default, const N: usize> Classifier<T, N> {
    /// The views held by the registers.
    pub closed spec fn views(&self) -> Seq<ComponentView<T, N>> {
        Seq::new(self.registers@.len(), |k: int| self.registers@[k].contents())
    }

    /// The classifier holds one view per process, each initial.
    pub closed spec fn is_initial(&self) -> bool {
        &&& self.registers@.len() == N
        &&& forall|k: int| 0 <= k < N ==> (#[trigger] self.views()[k]).is_initial()
    }

    /// The classifier holds one view per process, each dominated by `cs`.
    spec fn dominated_by(&self, cs: Seq<Component<T>>) -> bool {
        &&& self.registers@.len() == N
        &&& forall|k: int| 0 <= k < N ==> view_dominated(#[trigger] self.views()[k], cs)
    }

    /// Reads from each register and returns an array of the results.
    fn collect(&self) -> (r: [ComponentView<T, N>; N])
        requires
            self.registers@.len() == N,
        ensures
            r@ == self.views(),
    {
        let mut r: [ComponentView<T, N>; N] = [ComponentView::default(); N];
        let mut k: usize = 0;
        while k < N
            invariant
                k <= N,
                r@.len() == N,
                self.registers@.len() == N,
                forall|j: int| 0 <= j < k ==> #[trigger] r@[j] == self.views()[j],
            decreases N - k,
        {
            r[k] = self.registers[k].read();
            k = k + 1;
        }
        assert(r@ =~= self.views());
        r
    }

    /// Classify the input process into either a _primary_ or _secondary group_, and
    /// update the knowledge the process has about contents of the snapshot object.
    ///
    /// Calling processes are classified into disjoint groups. Processes in the primary
    /// group may learn additional information about the contents of the snapshot
    /// object, and receive an updated view in response. Processes in the secondary
    /// group retain their original knowledge.
    ///
    /// The input parameter _knowledge_bound_ is used to determine whether a process
    /// belongs to the primary or secondary group. Intuitively, if the amount of
    /// information a process knows about the contents of the snapshot object is
    /// greater than the knowledge bound, then it is placed in the primary group.
    /// If the amount of knowledge a process has is less than the knowledge bound,
    /// it is placed in the secondary group.
    fn classify(&mut self, i: usize, knowledge_bound: u32, view: ComponentView<T, N>) -> (g: Group<
        T,
        N,
    >)
        requires
            old(self).registers@.len() == N,
            i < N,
            total(union_of(old(self).views().update(i as int, view))) <= u32::MAX,
        ensures
            final(self).registers@.len() == N,
            final(self).views() == old(self).views().update(i as int, view),
            match g {
                Group::Primary(union) => {
                    &&& union.components@ == union_of(final(self).views())
                    &&& total(union.components@) > knowledge_bound
                },
                Group::Secondary => total(union_of(final(self).views())) <= knowledge_bound,
            },
    {
        let ghost before = self.views();
        self.registers[i].write(view);
        assert(self.views() =~= before.update(i as int, view));
        let union = ComponentView::union_many(self.collect());
        assert(union.components@ =~= union_of(self.views()));
        if union.size() > knowledge_bound {
            Group::Primary(union)
        } else {
            Group::Secondary
        }
    }
}

impl<T: Copy + Default, const N: usize> Default for Classifier<T, N> {
    fn default() -> (r: Self)
        ensures
            r.is_initial(),
    {
        let mut registers: Vec<MutexRegister<ComponentView<T, N>>> = Vec::new();
        let mut k: usize = 0;
        while k < N
            invariant
                k <= N,
                registers@.len() == k,
                forall|j: int| 0 <= j < k ==> (#[trigger] registers@[j]).contents().is_initial(),
            decreases N - k,
        {
            registers.push(MutexRegister::new());
            k = k + 1;
        }
        let r = Self { registers };
        assert forall|k: int| 0 <= k < N implies (#[trigger] r.views()[k]).is_initial() by {
            assert(r.views()[k] == r.registers@[k].contents());
        }
        r
    }
}


/// A complete binary tree.
#[derive(Debug)]
pub enum CompleteBinaryTree<T: Default> {
    Leaf(T),
    Node(T, Box<CompleteBinaryTree<T>>, Box<CompleteBinaryTree<T>>),
}

impl<T: Default> CompleteBinaryTree<T> {
    /// The height of the tree: a leaf has height one, and a node one more
    /// than its right child.
    pub open spec fn height(&self) -> nat
        decreases self,
    {
        match self {
            CompleteBinaryTree::Leaf(_) => 1,
            CompleteBinaryTree::Node(_, _, right) => right.height() + 1,
        }
    }

    /// Both children of every node have the same height.
    pub open spec fn is_complete(&self) -> bool
        decreases self,
    {
        match self {
            CompleteBinaryTree::Leaf(_) => true,
            CompleteBinaryTree::Node(_, left, right) => {
                &&& left.is_complete()
                &&& right.is_complete()
                &&& left.height() == right.height()
            },
        }
    }

    /// Every node holds a default value of `T`.
    pub open spec fn is_default(&self) -> bool
        decreases self,
    {
        match self {
            CompleteBinaryTree::Leaf(value) => call_ensures(T::default, (), *value),
            CompleteBinaryTree::Node(value, left, right) => {
                &&& call_ensures(T::default, (), *value)
                &&& left.is_default()
                &&& right.is_default()
            },
        }
    }

    /// Creates a new complete binary tree of a given height.
    pub fn new(height: u32) -> (r: Self)
        requires
            height >= 1,
        ensures
            r.height() == height,
            r.is_complete(),
            r.is_default(),
        decreases height,
    {
        if height == 1 {
            Self::Leaf(T::default())
        } else {
            Self::Node(
                T::default(),
                Box::new(Self::new(height - 1)),
                Box::new(Self::new(height - 1)),
            )
        }
    }

    /// Each child of a node of a complete tree is one level below the node.
    pub proof fn children_are_one_level_lower(&self)
        requires
            self.is_complete(),
        ensures
            self matches CompleteBinaryTree::Node(_, left, right) ==> {
                &&& left.height() + 1 == self.height()
                &&& right.height() + 1 == self.height()
                &&& left.is_complete()
                &&& right.is_complete()
            },
    {
    }

    /// Returns the _level_ of the node inside the tree.
    ///
    /// The level of a node is the height of the tree rooted
    /// at that node.
    pub fn level(&self) -> (r: u32)
        requires
            self.height() <= u32::MAX,
        ensures
            r == self.height(),
        decreases self,
    {
        match self {
            Self::Leaf(_) => 1,
            Self::Node(_, _, child) => child.level() + 1,
        }
    }
}

/// Every classifier of the tree holds one view per process, each dominated
/// by `cs`.
spec fn tree_dominated_by<T: Copy + Default, const N: usize>(
    tree: CompleteBinaryTree<Classifier<T, N>>,
    cs: Seq<Component<T>>,
) -> bool
    decreases tree,
{
    match tree {
        CompleteBinaryTree::Leaf(cls) => cls.dominated_by(cs),
        CompleteBinaryTree::Node(cls, left, right) => {
            &&& cls.dominated_by(cs)
            &&& tree_dominated_by(*left, cs)
            &&& tree_dominated_by(*right, cs)
        },
    }
}

/// Dominance by components carries over to components that advance.
proof fn lemma_tree_advances<T: Copy + Default, const N: usize>(
    tree: CompleteBinaryTree<Classifier<T, N>>,
    cs: Seq<Component<T>>,
    later: Seq<Component<T>>,
)
    requires
        cs.len() == N,
        tree_dominated_by(tree, cs),
        advances(cs, later),
    ensures
        tree_dominated_by(tree, later),
    decreases tree,
{
    let cls = match tree {
        CompleteBinaryTree::Leaf(cls) => cls,
        CompleteBinaryTree::Node(cls, _, _) => cls,
    };
    assert forall|k: int| 0 <= k < N implies view_dominated(#[trigger] cls.views()[k], later) by {
        lemma_view_advances(cls.views()[k], cs, later);
    }
    match tree {
        CompleteBinaryTree::Leaf(_) => {},
        CompleteBinaryTree::Node(_, left, right) => {
            lemma_tree_advances(*left, cs, later);
            lemma_tree_advances(*right, cs, later);
        },
    }
}

/// A tree of new classifiers is dominated by any components.
proof fn lemma_tree_default<T: Copy + Default, const N: usize>(
    tree: CompleteBinaryTree<Classifier<T, N>>,
    cs: Seq<Component<T>>,
)
    requires
        cs.len() == N,
        tree.is_default(),
    ensures
        tree_dominated_by(tree, cs),
    decreases tree,
{
    let cls = match tree {
        CompleteBinaryTree::Leaf(cls) => cls,
        CompleteBinaryTree::Node(cls, _, _) => cls,
    };
    assert(cls.is_initial());
    assert forall|j: int| 0 <= j < N implies view_dominated(#[trigger] cls.views()[j], cs) by {
        let v = cls.views()[j];
        assert(v.is_initial());
        assert forall|k: int| 0 <= k < N implies dominated(#[trigger] v.components@[k], cs[k]) by {
            assert(v.components@[k].is_initial());
        }
    }
    match tree {
        CompleteBinaryTree::Leaf(_) => {},
        CompleteBinaryTree::Node(_, left, right) => {
            lemma_tree_default(*left, cs);
            lemma_tree_default(*right, cs);
        },
    }
}

/// The labels met at level `level` of a tree of height `height` lie within
/// `2^(height - level) - 1` of the root label `2^(height - 1)`.
spec fn label_ok(label: u32, height: nat, level: nat) -> bool {
    &&& pow2((height - 1) as nat) + 1 <= label + pow2((height - level) as nat)
    &&& label + 1 <= pow2((height - 1) as nat) + pow2((height - level) as nat)
}

/// Powers of two divide one another; the step taken below a node at
/// `level` halves the span of its labels.
proof fn lemma_steps(height: nat, level: nat)
    requires
        1 <= level <= height,
    ensures
        pow2(height) / pow2(level) == pow2((height - level) as nat),
        pow2(height) / 2 == pow2((height - 1) as nat),
        pow2((height - level + 1) as nat) == 2 * pow2((height - level) as nat),
        level >= 2 ==> 2 * pow2((height - level) as nat) <= pow2((height - 1) as nat),
        pow2((height - level) as nat) >= 1,
{
    let d = (height - level) as nat;
    lemma_pow2_adds(d, level);
    lemma_pow2_pos(level);
    lemma_pow2_pos(d);
    lemma_div_by_multiple(pow2(d) as int, pow2(level) as int);
    lemma_pow2_unfold(height);
    lemma_pow2_unfold(d + 1);
    if level >= 2 {
        if d + 1 < height - 1 {
            lemma_pow2_strictly_increases(d + 1, (height - 1) as nat);
        }
    }
}


/// Component `c` after a write of `value`: one more operation is counted.
spec fn written<T: Copy + Default>(c: Component<T>, value: T) -> Component<T> {
    Component { value, sequence: (c.sequence + 1) as u32, counter: (c.counter + 1) as u32 }
}

/// Each value of `r` is that of the corresponding component of `cs`, or, for
/// a component never written, a default value.
spec fn agrees<T: Copy + Default>(r: Seq<T>, cs: Seq<Component<T>>) -> bool {
    &&& r.len() == cs.len()
    &&& forall|k: int|
        0 <= k < cs.len() ==> if cs[k].sequence > 0 {
            r[k] == cs[k].value
        } else {
            call_ensures(T::default, (), #[trigger] r[k])
        }
}

/// Components that count no operation have a total of zero.
proof fn lemma_total_zero<T: Copy + Default>(cs: Seq<Component<T>>)
    requires
        forall|k: int| 0 <= k < cs.len() ==> #[trigger] cs[k].counter == 0,
    ensures
        total(cs) == 0,
    decreases cs.len(),
{
    if cs.len() > 0 {
        lemma_total_zero(cs.drop_last());
    }
}

/// An N-process M-shot mutex-based snapshot object.
pub struct LatticeMutexSnapshot<T: Copy + Default, const N: usize, const M: u32> {
    components: Vec<MutexRegister<Component<T>>>,
    root: Box<CompleteBinaryTree<Classifier<T, N>>>,
}

impl<T: Copy + Default, const N: usize, const M: u32> LatticeMutexSnapshot<T, N, M> {
    /// The current contents of each component.
    closed spec fn current(&self) -> Seq<Component<T>> {
        Seq::new(self.components@.len(), |k: int| self.components@[k].contents())
    }

    /// Component `k` has been written by some operation.
    pub closed spec fn written(&self, k: int) -> bool {
        self.current()[k].sequence > 0
    }

    /// The number of operations performed on the object so far.
    pub closed spec fn operations(&self) -> int {
        total(self.current())
    }

    closed spec fn wf(&self) -> bool {
        &&& self.components@.len() == N
        &&& components_ok(self.current())
        &&& total(self.current()) <= M
        &&& 1 <= self.root.height() <= 31
        &&& pow2(self.root.height()) == M
        &&& self.root.is_complete()
        &&& tree_dominated_by(*self.root, self.current())
    }

    /// Reads from each register and returns an array of the results.
    fn collect(&self) -> (r: ComponentView<T, N>)
        requires
            self.components@.len() == N,
        ensures
            r.components@ == self.current(),
    {
        let mut components: [Component<T>; N] = [Component::default(); N];
        let mut k: usize = 0;
        while k < N
            invariant
                k <= N,
                components@.len() == N,
                self.components@.len() == N,
                forall|j: int| 0 <= j < k ==> #[trigger] components@[j] == self.current()[j],
            decreases N - k,
        {
            components[k] = self.components[k].read();
            k = k + 1;
        }
        assert(components@ =~= self.current());
        ComponentView { components }
    }

    /// The label of the left child of a node whose children are at `level`.
    fn left_label(label: u32, level: u32) -> (r: u32)
        requires
            level < 31,
            M as nat / pow2((level + 1) as nat) <= label,
        ensures
            r == label - M as nat / pow2((level + 1) as nat),
    {
        proof {
            lemma_u32_shr_is_div(M, (level + 1) as u32);
        }
        label - (M >> (level + 1))
    }

    /// The label of the right child of a node whose children are at `level`.
    fn right_label(label: u32, level: u32) -> (r: u32)
        requires
            level < 31,
            label + M as nat / pow2((level + 1) as nat) <= u32::MAX,
        ensures
            r == label + M as nat / pow2((level + 1) as nat),
    {
        proof {
            lemma_u32_shr_is_div(M, (level + 1) as u32);
        }
        label + (M >> (level + 1))
    }

    /// Returns an array of values based on the contents of the snapshot object.
    ///
    /// The values are determined by having the process traverse through log_2(M)
    /// levels of a complete binary tree. At each level, the knowledge the process
    /// has about the contents of the snapshot object either increases (and the
    /// process descends to the right) or stays the same (and the process descends to
    /// the left). Once the process reaches a leaf, it returns an array of values
    /// based on the knowledge it obtained during this traversal.
    fn traverse(
        i: usize,
        node: &mut CompleteBinaryTree<Classifier<T, N>>,
        view: ComponentView<T, N>,
        label: u32,
        Ghost(height): Ghost<nat>,
    ) -> (r: [T; N])
        requires
            i < N,
            pow2(height) == M,
            1 <= old(node).height() <= height <= 31,
            old(node).is_complete(),
            label_ok(label, height, old(node).height()),
            components_ok(view.components@),
            total(view.components@) <= u32::MAX,
            tree_dominated_by(*old(node), view.components@),
        ensures
            final(node).height() == old(node).height(),
            final(node).is_complete(),
            tree_dominated_by(*final(node), view.components@),
            agrees(r@, view.components@),
        decreases old(node).height(),
    {
        let ghost cs = view.components@;
        match node {
            CompleteBinaryTree::Leaf(cls) => {
                let ghost views = cls.views().update(i as int, view);
                proof {
                    Self::lemma_classify(*cls, i as int, view);
                }
                match cls.classify(i, label, view) {
                    Group::Primary(union) => union.values(),
                    Group::Secondary => view.values(),
                }
            },
            CompleteBinaryTree::Node(cls, left, right) => {
                let ghost views = cls.views().update(i as int, view);
                proof {
                    Self::lemma_classify(*cls, i as int, view);
                    lemma_steps(height, old(node).height());
                }
                match cls.classify(i, label, view) {
                    Group::Primary(union) => {
                        proof {
                            lemma_tree_advances(**right, cs, union.components@);
                        }
                        let label = Self::right_label(label, right.level());
                        let r = Self::traverse(i, right, union, label, Ghost(height));
                        proof {
                            lemma_tree_advances(**right, union.components@, cs);
                        }
                        r
                    },
                    Group::Secondary => {
                        let label = Self::left_label(label, left.level());
                        Self::traverse(i, left, view, label, Ghost(height))
                    },
                }
            },
        }
    }

    /// A process that adds its view, holding the current components, to a
    /// classifier dominated by them finds their union as new as they are.
    proof fn lemma_classify(cls: Classifier<T, N>, i: int, view: ComponentView<T, N>)
        requires
            0 <= i < N,
            components_ok(view.components@),
            cls.dominated_by(view.components@),
        ensures
            union_of(cls.views().update(i, view)).len() == N,
            components_ok(union_of(cls.views().update(i, view))),
            advances(view.components@, union_of(cls.views().update(i, view))),
            advances(union_of(cls.views().update(i, view)), view.components@),
            total(union_of(cls.views().update(i, view))) == total(view.components@),
            forall|j: int|
                0 <= j < N ==> view_dominated(
                    #[trigger] cls.views().update(i, view)[j],
                    view.components@,
                ),
    {
        let cs = view.components@;
        let views = cls.views().update(i, view);
        assert forall|j: int| 0 <= j < N implies view_dominated(#[trigger] views[j], cs) by {
            if j == i {
                assert forall|k: int| 0 <= k < N implies dominated(
                    #[trigger] views[j].components@[k],
                    cs[k],
                ) by {
                    assert(component_ok(cs[k]));
                }
            }
        }
        lemma_union(views, i, cs);
    }

    /// Returns a view of the snapshot object and updates the ith component to
    /// contain the input value.
    fn scate(&mut self, i: usize, value: T) -> (r: [T; N])
        requires
            old(self).wf(),
            i < N,
            old(self).operations() < M,
        ensures
            final(self).wf(),
            final(self).current() == old(self).current().update(
                i as int,
                written(old(self).current()[i as int], value),
            ),
            agrees(r@, final(self).current()),
            final(self).operations() == old(self).operations() + 1,
    {
        let ghost before = self.current();
        let component = self.components[i].read();
        proof {
            lemma_total_update(before, i as int, written(component, value));
        }
        self.components[i].write(
            Component {
                value,
                counter: component.counter + 1,
                sequence: component.sequence + 1,
            },
        );
        let ghost after = before.update(i as int, written(component, value));
        assert(self.current() =~= after);
        let view = self.collect();
        let ghost height = self.root.height();
        proof {
            lemma_tree_advances(*self.root, before, after);
            lemma_steps(height, height);
        }
        Self::traverse(i, &mut self.root, view, M / 2, Ghost(height))
    }
}

impl<T: Copy + Default, const N: usize, const M: u32> Snapshot<N> for LatticeMutexSnapshot<
    T,
    N,
    M,
> {
    type Value = T;

    closed spec fn components(&self) -> Seq<T> {
        Seq::new(self.current().len(), |k: int| self.current()[k].value)
    }

    closed spec fn inv(&self) -> bool {
        self.wf()
    }

    open spec fn initial_value(value: T) -> bool {
        call_ensures(T::default, (), value)
    }

    /// The number `M` of supported operations must be a power of two,
    /// splitting at least once.
    open spec fn can_create() -> bool {
        M >= 2 && is_power_of_two(M as int)
    }

    /// A scan returns the value of each component that was written, and a
    /// default value of `T` for each component never written.
    open spec fn scans_to(&self, r: Seq<T>) -> bool {
        &&& r.len() == N
        &&& forall|k: int|
            0 <= k < N ==> {
                &&& self.written(k) ==> #[trigger] r[k] == self.components()[k]
                &&& !self.written(k) ==> call_ensures(T::default, (), r[k])
            }
    }

    /// The scanning process records its component under its id, and the
    /// object supports `M` operations.
    open spec fn can_scan(&self, i: ProcessId) -> bool {
        i < N && self.operations() < M
    }

    /// The object supports `M` operations.
    open spec fn can_update(&self, i: ProcessId) -> bool {
        self.operations() < M
    }

    /// Create a new snapshot object, with no operation performed yet.
    fn new() -> (s: Self)
        ensures
            s.operations() == 0,
    {
        // log_2(M) must be an integer to construct a complete binary tree of
        // that height.
        let mut height: u32 = 0;
        let mut power: u32 = 1;
        proof {
            lemma2_to64();
        }
        while power < M
            invariant
                M >= 2,
                is_power_of_two(M as int),
                power == pow2(height as nat),
                1 <= power <= M,
                pow2(32) > u32::MAX,
            decreases M - power,
        {
            proof {
                let h = choose|h: nat| pow2(h) == M;
                if h <= height {
                    if h < height {
                        lemma_pow2_strictly_increases(h, height as nat);
                    }
                    assert(false);
                }
                if height + 1 < h {
                    lemma_pow2_strictly_increases((height + 1) as nat, h);
                }
                lemma_pow2_unfold((height + 1) as nat);
                if height >= 32 {
                    if height > 32 {
                        lemma_pow2_strictly_increases(32, height as nat);
                    }
                    assert(false);
                }
            }
            power = power * 2;
            height = height + 1;
        }
        proof {
            if height >= 32 {
                if height > 32 {
                    lemma_pow2_strictly_increases(32, height as nat);
                }
            }
            if height == 0 {
                assert(pow2(0) == 1);
            }
        }
        let mut components: Vec<MutexRegister<Component<T>>> = Vec::new();
        let mut k: usize = 0;
        while k < N
            invariant
                k <= N,
                components@.len() == k,
                forall|j: int| 0 <= j < k ==> (#[trigger] components@[j]).contents().is_initial(),
            decreases N - k,
        {
            components.push(MutexRegister::new());
            k = k + 1;
        }
        let root = CompleteBinaryTree::new(height);
        let s = Self { components, root: Box::new(root) };
        proof {
            assert forall|k: int| 0 <= k < N implies (#[trigger] s.current()[k]).is_initial() by {
                assert(s.current()[k] == s.components@[k].contents());
            }
            assert forall|k: int| 0 <= k < N implies component_ok(#[trigger] s.current()[k]) by {
                assert(s.current()[k].is_initial());
            }
            lemma_total_zero(s.current());
            lemma_tree_default(*s.root, s.current());
        }
        s
    }

    /// A scan counts as one operation; where `T` has a single default value,
    /// it returns the value of every component.
    fn scan(&mut self, i: ProcessId) -> (r: [T; N])
        ensures
            final(self).operations() == old(self).operations() + 1,
            default_is_unique::<T>() ==> r@ == old(self).components(),
    {
        let value = self.components[i].read().value;
        let r = self.scate(i, value);
        proof {
            assert(self.current() =~= old(self).current().update(
                i as int,
                written(old(self).current()[i as int], value),
            ));
            assert forall|k: int| 0 <= k < N implies {
                &&& old(self).written(k) ==> #[trigger] r@[k] == old(self).components()[k]
                &&& !old(self).written(k) ==> call_ensures(T::default, (), r@[k])
                &&& (default_is_unique::<T>() ==> r@[k] == old(self).components()[k])
            } by {
                assert(old(self).current().len() == N);
                assert(component_ok(old(self).current()[k]));
                assert(component_ok(self.current()[k]));
                assert(if self.current()[k].sequence > 0 {
                    r@[k] == self.current()[k].value
                } else {
                    call_ensures(T::default, (), r@[k])
                });
                assert(old(self).components()[k] == old(self).current()[k].value);
                if k == i {
                    lemma_total_update(old(self).current(), k, old(self).current()[k]);
                    assert(self.current()[k].value == old(self).current()[k].value);
                    assert(self.current()[k].sequence > 0);
                    assert(r@[k] == old(self).components()[k]);
                } else {
                    assert(self.current()[k] == old(self).current()[k]);
                }
                if !old(self).written(k) {
                    assert(call_ensures(T::default, (), old(self).components()[k]));
                    assert(call_ensures(T::default, (), r@[k]));
                }
            }
            if default_is_unique::<T>() {
                assert(r@ =~= old(self).components());
            }
            assert(self.components() =~= old(self).components());
        }
        r
    }

    /// An update counts as one operation.
    fn update(&mut self, i: ProcessId, value: T)
        ensures
            final(self).operations() == old(self).operations() + 1,
    {
        self.scate(i, value);
        assert(self.components() =~= old(self).components().update(i as int, value));
    }
}

} // verus!
