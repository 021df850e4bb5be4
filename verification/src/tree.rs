//! What a hardware-discovery provider reports, held as plain data: the
//! objects of the machine in an arena, each with its kind, its parent and
//! its indices.

use vstd::prelude::*;

verus! {

/// The classification of an object, with the attributes that belong to it.
#[derive(Debug, PartialEq, Eq, Structural, Clone, Copy)]
pub enum ObjectKind {
    /// The whole machine, usually the root.
    Machine,
    /// A physical package, what goes into a socket.
    Package,
    /// A physical core.
    Core,
    /// A processing unit (logical CPU, hardware thread).
    ProcessingUnit,
    /// A level-1 data or unified cache, with the depth it declares.
    L1Cache { depth: u32 },
    /// A level-2 data or unified cache, with the depth it declares.
    L2Cache { depth: u32 },
    /// A level-3 data or unified cache, with the depth it declares.
    L3Cache { depth: u32 },
    /// A NUMA node, with the memory attached to it in bytes.
    NumaNode { memory: u64 },
    /// Any other object: a group, a die, a deeper cache, a device.
    Other,
}

/// What an ascent through the tree can look for.
#[derive(Debug, PartialEq, Eq, Structural, Clone, Copy)]
pub enum Level {
    Core,
    L1Cache,
    L2Cache,
    L3Cache,
    NumaNode,
}

impl ObjectKind {
    /// Whether an object of this kind counts as one of `level`. A cache
    /// counts only if the depth it declares is at least that of the level,
    /// whatever its position in the tree.
    pub open spec fn spec_is_a(&self, level: Level) -> bool {
        match level {
            Level::Core => *self == ObjectKind::Core,
            Level::L1Cache => *self matches ObjectKind::L1Cache { depth } && depth >= 1,
            Level::L2Cache => *self matches ObjectKind::L2Cache { depth } && depth >= 2,
            Level::L3Cache => *self matches ObjectKind::L3Cache { depth } && depth >= 3,
            Level::NumaNode => *self is NumaNode,
        }
    }

    #[verifier::when_used_as_spec(spec_is_a)]
    pub fn is_a(&self, level: Level) -> (b: bool)
        ensures
            b == self.spec_is_a(level),
    {
        match level {
            Level::Core => match self {
                ObjectKind::Core => true,
                _ => false,
            },
            Level::L1Cache => match self {
                ObjectKind::L1Cache { depth } => *depth >= 1,
                _ => false,
            },
            Level::L2Cache => match self {
                ObjectKind::L2Cache { depth } => *depth >= 2,
                _ => false,
            },
            Level::L3Cache => match self {
                ObjectKind::L3Cache { depth } => *depth >= 3,
                _ => false,
            },
            Level::NumaNode => match self {
                ObjectKind::NumaNode { .. } => true,
                _ => false,
            },
        }
    }

    /// The memory of a NUMA node; 0 for any other kind.
    pub open spec fn spec_memory(&self) -> u64 {
        match *self {
            ObjectKind::NumaNode { memory } => memory,
            _ => 0,
        }
    }

    #[verifier::when_used_as_spec(spec_memory)]
    pub fn memory(&self) -> (bytes: u64)
        ensures
            bytes == self.spec_memory(),
    {
        match self {
            ObjectKind::NumaNode { memory } => *memory,
            _ => 0,
        }
    }
}

/// One object of the machine.
#[derive(Debug, PartialEq, Eq, Structural, Clone, Copy)]
pub struct HardwareObject {
    pub kind: ObjectKind,
    /// Position of the parent in the tree; `None` for a root.
    pub parent: Option<usize>,
    /// Index of the object as the operating system numbers it.
    pub os_index: u64,
    /// Index of the object among those of its kind, as the provider numbers
    /// them across the whole tree.
    pub logical_index: u64,
}

/// The mathematical content of a [`HardwareTree`].
pub struct TreeModel {
    /// The objects, in the order in which they were added.
    pub objects: Seq<HardwareObject>,
    /// The positions of the processing units, in the same order.
    pub units: Seq<usize>,
}

/// How many steps an ascent from `from` can take at most.
pub open spec fn height_bound(from: Option<usize>) -> nat {
    match from {
        Some(i) => (i + 1) as nat,
        None => 0,
    }
}

impl TreeModel {
    /// Every parent stands before its children, and `units` lists exactly
    /// the processing units, each once, in the order of `objects`.
    pub open spec fn wf(self) -> bool {
        &&& forall|i: int|
            0 <= i < self.objects.len() ==> {
                (#[trigger] self.objects[i]).parent matches Some(p) ==> p < i
            }
        &&& forall|k: int|
            0 <= k < self.units.len() ==> {
                &&& (#[trigger] self.units[k]) < self.objects.len()
                &&& self.objects[self.units[k] as int].kind == ObjectKind::ProcessingUnit
            }
        &&& forall|j: int, k: int| 0 <= j < k < self.units.len() ==> self.units[j] < self.units[k]
        &&& forall|i: int|
            0 <= i < self.objects.len() && (#[trigger] self.objects[i]).kind
                == ObjectKind::ProcessingUnit ==> self.units.contains(i as usize)
    }

    /// Whether `parent` can be the parent of the next object added.
    pub open spec fn admits(self, parent: Option<usize>) -> bool {
        parent matches Some(p) ==> p < self.objects.len()
    }

    /// The tree with `object` added at the end.
    pub open spec fn with(self, object: HardwareObject) -> TreeModel {
        TreeModel {
            objects: self.objects.push(object),
            units: if object.kind == ObjectKind::ProcessingUnit {
                self.units.push(self.objects.len() as usize)
            } else {
                self.units
            },
        }
    }

    /// The parent of the object at position `i`, where it stands before
    /// `i`; `None` for a root.
    pub open spec fn parent(self, i: usize) -> Option<usize> {
        match self.objects[i as int].parent {
            Some(p) => if p < i {
                Some(p)
            } else {
                None
            },
            None => None,
        }
    }

    /// Whether the object at position `i` counts as one of `level`.
    pub open spec fn is_a(self, i: usize, level: Level) -> bool {
        self.objects[i as int].kind.is_a(level)
    }

    /// The way from `from` to the root: `from` itself first, then its
    /// parent, and so on.
    pub open spec fn path(self, from: Option<usize>) -> Seq<usize>
        decreases height_bound(from),
    {
        match from {
            None => Seq::empty(),
            Some(i) => if i >= self.objects.len() {
                Seq::empty()
            } else {
                seq![i] + self.path(self.parent(i))
            },
        }
    }

    /// The first object of `level` on the way from `from` to the root,
    /// `from` itself included; `None` where the way holds none.
    pub open spec fn nearest(self, from: Option<usize>, level: Level) -> Option<usize>
        decreases height_bound(from),
    {
        match from {
            None => None,
            Some(i) => if i >= self.objects.len() {
                None
            } else if self.is_a(i, level) {
                Some(i)
            } else {
                self.nearest(self.parent(i), level)
            },
        }
    }

    /// The `k`-th object on `way` is of `level`, and none before it is.
    pub open spec fn is_first_of(self, way: Seq<usize>, k: int, level: Level) -> bool {
        &&& 0 <= k < way.len()
        &&& self.is_a(way[k], level)
        &&& forall|j: int| 0 <= j < k ==> !self.is_a(#[trigger] way[j], level)
    }

    /// No object on `way` is of `level`.
    pub open spec fn has_none_of(self, way: Seq<usize>, level: Level) -> bool {
        forall|k: int| 0 <= k < way.len() ==> !self.is_a(#[trigger] way[k], level)
    }

    /// `nearest` finds the first object of `level` on the path: what it
    /// returns is on the path and of that level, and nothing before it on
    /// the path is. Where it returns `None`, nothing on the path is of that
    /// level.
    pub proof fn lemma_nearest_is_first(self, from: Option<usize>, level: Level)
        ensures
            match self.nearest(from, level) {
                Some(found) => exists|k: int|
                    self.is_first_of(self.path(from), k, level) && #[trigger] self.path(from)[k]
                        == found,
                None => self.has_none_of(self.path(from), level),
            },
        decreases height_bound(from),
    {
        let way = self.path(from);
        match from {
            None => {},
            Some(i) => {
                if i >= self.objects.len() {
                } else if self.is_a(i, level) {
                    assert(self.is_first_of(way, 0, level) && way[0] == i);
                } else {
                    let up = self.parent(i);
                    let rest = self.path(up);
                    self.lemma_nearest_is_first(up, level);
                    assert(way == seq![i] + rest);
                    assert forall|k: int| 0 < k < way.len() implies #[trigger] way[k] == rest[k
                        - 1] by {}
                    match self.nearest(up, level) {
                        Some(found) => {
                            let k = choose|k: int|
                                self.is_first_of(rest, k, level) && #[trigger] rest[k] == found;
                            assert forall|j: int| 0 <= j < k + 1 implies !self.is_a(
                                #[trigger] way[j],
                                level,
                            ) by {
                                if j > 0 {
                                    assert(way[j] == rest[j - 1]);
                                }
                            }
                            assert(self.is_first_of(way, k + 1, level) && way[k + 1] == found);
                        },
                        None => {
                            assert forall|k: int| 0 <= k < way.len() implies !self.is_a(
                                #[trigger] way[k],
                                level,
                            ) by {
                                if k > 0 {
                                    assert(way[k] == rest[k - 1]);
                                }
                            }
                        },
                    }
                }
            },
        }
    }

    /// An ascent that goes on from an object on the path stays on the
    /// path: the way up from `via` is the rest of the way up from `from`.
    pub proof fn lemma_path_continues(self, from: Option<usize>, via: usize)
        requires
            self.path(from).contains(via),
        ensures
            exists|k: int|
                0 <= k < self.path(from).len() && #[trigger] self.path(from).skip(k) == self.path(
                    Some(via),
                ),
        decreases height_bound(from),
    {
        let way = self.path(from);
        match from {
            None => {},
            Some(i) => {
                if i < self.objects.len() {
                    let rest = self.path(self.parent(i));
                    if via == i {
                        assert(way.skip(0) == way);
                    } else {
                        let at = choose|at: int| 0 <= at < way.len() && way[at] == via;
                        assert(rest[at - 1] == via);
                        self.lemma_path_continues(self.parent(i), via);
                        let k = choose|k: int|
                            0 <= k < rest.len() && #[trigger] rest.skip(k) == self.path(Some(via));
                        assert(way.skip(k + 1) == rest.skip(k));
                    }
                }
            },
        }
    }
}

/// The objects that a provider reports, each with a link to its parent.
///
/// Objects are added parent first, so the links can never form a cycle; the
/// processing units are listed as they come.
#[derive(Debug)]
pub struct HardwareTree {
    objects: Vec<HardwareObject>,
    units: Vec<usize>,
}

impl View for HardwareTree {
    type V = TreeModel;

    closed spec fn view(&self) -> TreeModel {
        TreeModel { objects: self.objects@, units: self.units@ }
    }
}

impl HardwareTree {
    /// A tree without objects.
    pub fn new() -> (tree: HardwareTree)
        ensures
            tree@.objects.len() == 0,
            tree@.units.len() == 0,
            tree@.wf(),
    {
        HardwareTree { objects: Vec::new(), units: Vec::new() }
    }

    /// Adds `object` and returns its position, provided its parent is
    /// already in the tree (or it has none). Otherwise the tree stays as it
    /// is and the result is `None`.
    pub fn add(&mut self, object: HardwareObject) -> (position: Option<usize>)
        requires
            old(self)@.wf(),
        ensures
            final(self)@.wf(),
            old(self)@.admits(object.parent) ==> {
                &&& position == Some(old(self)@.objects.len() as usize)
                &&& final(self)@ == old(self)@.with(object)
            },
            !old(self)@.admits(object.parent) ==> {
                &&& position.is_none()
                &&& final(self)@ == old(self)@
            },
    {
        let position = self.objects.len();
        match object.parent {
            Some(p) => {
                if p >= position {
                    return None;
                }
            },
            None => {},
        }
        let ghost before = self@;
        self.objects.push(object);
        match object.kind {
            ObjectKind::ProcessingUnit => {
                self.units.push(position);
            },
            _ => {},
        }
        proof {
            let after = self@;
            assert(after == before.with(object));
            assert forall|i: int|
                0 <= i < after.objects.len() && (#[trigger] after.objects[i]).kind
                    == ObjectKind::ProcessingUnit implies after.units.contains(i as usize) by {
                if i < before.objects.len() {
                    assert(before.objects[i] == after.objects[i]);
                    let k = choose|k: int|
                        0 <= k < before.units.len() && before.units[k] == i as usize;
                    assert(after.units[k] == i as usize);
                } else {
                    assert(after.units[after.units.len() - 1] == i as usize);
                }
            }
        }
        Some(position)
    }

    /// The number of objects.
    pub fn len(&self) -> (n: usize)
        ensures
            n == self@.objects.len(),
    {
        self.objects.len()
    }

    /// The object at `position`, if there is one.
    pub fn get(&self, position: usize) -> (object: Option<HardwareObject>)
        ensures
            position < self@.objects.len() ==> object == Some(self@.objects[position as int]),
            position >= self@.objects.len() ==> object.is_none(),
    {
        if position < self.objects.len() {
            Some(self.objects[position])
        } else {
            None
        }
    }

    /// The object at `position`.
    pub(crate) fn object(&self, position: usize) -> (object: &HardwareObject)
        requires
            position < self@.objects.len(),
        ensures
            *object == self@.objects[position as int],
    {
        &self.objects[position]
    }

    /// The positions of the processing units, in the order in which they
    /// were added.
    pub fn processing_units(&self) -> (units: &Vec<usize>)
        ensures
            units@ == self@.units,
    {
        &self.units
    }

    /// Walks from `from` towards the root and stops at the first object of
    /// `level`.
    pub fn nearest(&self, from: Option<usize>, level: Level) -> (found: Option<usize>)
        requires
            self@.wf(),
        ensures
            found == self@.nearest(from, level),
            found matches Some(i) ==> i < self@.objects.len() && self@.is_a(i, level),
    {
        let mut at = from;
        loop
            invariant
                self@.wf(),
                self@.nearest(at, level) == self@.nearest(from, level),
            decreases height_bound(at),
        {
            match at {
                None => {
                    return None;
                },
                Some(i) => {
                    if i >= self.objects.len() {
                        return None;
                    }
                    let object = &self.objects[i];
                    if object.kind.is_a(level) {
                        return Some(i);
                    }
                    at = object.parent;
                },
            }
        }
    }
}

} // verus!
