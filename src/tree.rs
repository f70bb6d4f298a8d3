use vstd::prelude::*;

verus! {

/// A cell of the tree: an optional payload plus the indices of its parent and
/// children inside the owning tree's node store.
pub struct Node<T> {
    pub up: Option<usize>,
    pub left: Option<usize>,
    pub value: Option<T>,
    pub right: Option<usize>,
}

impl<T> Node<T> {
    /// A detached node holding `val`.
    pub fn new(val: T) -> (r: Self)
        ensures
            r.value == Some(val),
            r.up is None,
            r.left is None,
            r.right is None,
    {
        Node { up: None, left: None, value: Some(val), right: None }
    }

    /// Replaces the right-child link.
    pub fn set_right(&mut self, node_right: Option<usize>)
        ensures
            *final(self) == (Node { right: node_right, ..*old(self) }),
    {
        self.right = node_right;
    }

    /// Replaces the left-child link.
    pub fn set_left(&mut self, node_left: Option<usize>)
        ensures
            *final(self) == (Node { left: node_left, ..*old(self) }),
    {
        self.left = node_left;
    }
}

#[derive(PartialEq, Eq, Structural, Debug, Clone, Copy)]
pub enum TreeError {
    /// The requested link is absent at the cursor.
    DeadEnd,
    /// The operation needs a cursor, or a relative node, that is unset.
    OpOnNone,
}

impl TreeError {
    pub fn to_string(&self) -> (r: String)
        ensures
            r@ == (match self {
                TreeError::DeadEnd => "DeadEnd"@,
                TreeError::OpOnNone => "OpOnNone"@,
            }),
    {
        match self {
            TreeError::DeadEnd => "DeadEnd".to_string(),
            TreeError::OpOnNone => "OpOnNone".to_string(),
        }
    }
}

/// Which link of the cursor an operation follows or fills.
#[derive(PartialEq, Eq, Structural, Clone, Copy)]
pub enum Dir {
    Right,
    Left,
    Up,
}

/// A binary tree held in an arena: nodes are addressed by their index in
/// `nodes`, and links are indices. `head` is the root, `current` the cursor.
pub struct Tree<T> {
    nodes: Vec<Node<T>>,
    head: Option<usize>,
    current: Option<usize>,
}

pub open spec fn link_in(l: Option<usize>, n: int) -> bool {
    l matches Some(i) ==> i < n
}

pub open spec fn child_link<T>(nd: Node<T>, d: Dir) -> Option<usize> {
    match d {
        Dir::Left => nd.left,
        Dir::Right => nd.right,
        Dir::Up => nd.up,
    }
}

/// Node `i` of `ns` links only to stored nodes, and its links agree with those
/// of its parent and children.
pub open spec fn node_ok<T>(ns: Seq<Node<T>>, i: int) -> bool {
    let nd = ns[i];
    &&& link_in(nd.up, ns.len() as int)
    &&& link_in(nd.left, ns.len() as int)
    &&& link_in(nd.right, ns.len() as int)
    &&& (nd.left matches Some(c) ==> ns[c as int].up == Some(i as usize))
    &&& (nd.right matches Some(c) ==> ns[c as int].up == Some(i as usize))
    &&& (nd.left matches Some(c) ==> nd.right != Some(c))
    &&& nd.up != Some(i as usize)
    &&& (nd.up matches Some(p) ==> ns[p as int].left == Some(i as usize) || ns[p as int].right
        == Some(i as usize))
}

/// `nd` with its value replaced by `v`.
pub open spec fn with_value<T>(nd: Node<T>, v: T) -> Node<T> {
    Node { value: Some(v), ..nd }
}

/// `nd` with the child link on side `dir` (left or right) set to `l`.
pub open spec fn with_child<T>(nd: Node<T>, dir: Dir, l: Option<usize>) -> Node<T> {
    if dir == Dir::Left {
        Node { left: l, ..nd }
    } else {
        Node { right: l, ..nd }
    }
}

/// The nodes after a fresh node holding `v` is inserted above node `c`, taking
/// over `c`'s place under its parent and holding `c` as its child on side `dir`.
pub open spec fn spliced<T>(ns: Seq<Node<T>>, c: int, v: T, dir: Dir) -> Seq<Node<T>> {
    let n = ns.len() as usize;
    let up = ns[c].up;
    let ns1 = ns.update(c, Node { up: Some(n), ..ns[c] });
    let ns2 = match up {
        Some(p) => ns1.update(
            p as int,
            if ns[p as int].left == Some(c as usize) {
                Node { left: Some(n), ..ns1[p as int] }
            } else {
                Node { right: Some(n), ..ns1[p as int] }
            },
        ),
        None => ns1,
    };
    ns2.push(with_child(Node { up: up, left: None, value: Some(v), right: None }, dir, Some(c as usize)))
}

/// The lines of a dump of the subtree at `i`, placed at `depth`: the right
/// subtree, then the node itself, then the left subtree, each line given as
/// (depth, node index). Walks at most `fuel` levels.
pub open spec fn dump_lines<T>(ns: Seq<Node<T>>, i: int, depth: nat, fuel: nat) -> Seq<(nat, nat)>
    decreases fuel,
{
    if fuel == 0 || !(0 <= i < ns.len()) {
        seq![]
    } else {
        let right = match ns[i].right {
            Some(r) => dump_lines(ns, r as int, depth + 1, (fuel - 1) as nat),
            None => seq![],
        };
        let left = match ns[i].left {
            Some(l) => dump_lines(ns, l as int, depth + 1, (fuel - 1) as nat),
            None => seq![],
        };
        right.push((depth, i as nat)) + left
    }
}

pub open spec fn lines_view(v: Seq<(usize, usize)>) -> Seq<(nat, nat)> {
    v.map_values(|p: (usize, usize)| (p.0 as nat, p.1 as nat))
}

impl<T> Tree<T> {
    pub closed spec fn spec_nodes(&self) -> Seq<Node<T>> {
        self.nodes@
    }

    pub closed spec fn spec_head(&self) -> Option<usize> {
        self.head
    }

    pub closed spec fn spec_current(&self) -> Option<usize> {
        self.current
    }

    pub open spec fn wf(&self) -> bool {
        let ns = self.spec_nodes();
        &&& (ns.len() == 0 <==> self.spec_head() is None)
        &&& (self.spec_head() is None <==> self.spec_current() is None)
        &&& link_in(self.spec_head(), ns.len() as int)
        &&& link_in(self.spec_current(), ns.len() as int)
        &&& (self.spec_head() matches Some(h) ==> ns[h as int].up is None)
        &&& forall|i: int| 0 <= i < ns.len() ==> #[trigger] node_ok(ns, i)
    }

    /// The node under the cursor; meaningful when the cursor is set.
    pub open spec fn cur_node(&self) -> Node<T> {
        self.spec_nodes()[self.spec_current()->Some_0 as int]
    }

    /// An empty tree: no nodes, no root, no cursor.
    pub fn new() -> (r: Self)
        ensures
            r.wf(),
            r.spec_nodes().len() == 0,
            r.spec_head() is None,
            r.spec_current() is None,
    {
        Tree { nodes: Vec::new(), head: None, current: None }
    }

    /// Index of the root, if any node was ever set.
    pub fn head(&self) -> (r: Option<usize>)
        ensures
            r == self.spec_head(),
    {
        self.head
    }

    /// Index of the cursor, if any node was ever set.
    pub fn current(&self) -> (r: Option<usize>)
        ensures
            r == self.spec_current(),
    {
        self.current
    }

    /// The node stored at index `i`.
    pub fn node(&self, i: usize) -> (r: &Node<T>)
        requires
            i < self.spec_nodes().len(),
        ensures
            *r == self.spec_nodes()[i as int],
    {
        &self.nodes[i]
    }

    /// Number of nodes stored.
    pub fn len(&self) -> (r: usize)
        ensures
            r == self.spec_nodes().len(),
    {
        self.nodes.len()
    }

    /// Moves the cursor to the root; leaves an empty tree as it is.
    pub fn select_root(&mut self)
        requires
            old(self).wf(),
        ensures
            final(self).wf(),
            final(self).spec_nodes() == old(self).spec_nodes(),
            final(self).spec_head() == old(self).spec_head(),
            final(self).spec_current() == old(self).spec_head(),
    {
        self.current = self.head;
    }

    /// Moves the cursor along link `dir`.
    fn go(&mut self, dir: Dir) -> (r: Result<(), TreeError>)
        requires
            old(self).wf(),
        ensures
            final(self).wf(),
            final(self).spec_nodes() == old(self).spec_nodes(),
            final(self).spec_head() == old(self).spec_head(),
            old(self).spec_current() is None ==> r == Err::<(), TreeError>(TreeError::OpOnNone),
            old(self).spec_current() is Some ==> match child_link(old(self).cur_node(), dir) {
                Some(n) => r is Ok && final(self).spec_current() == Some(n),
                None => r == Err::<(), TreeError>(TreeError::DeadEnd),
            },
            r is Err ==> final(self).spec_current() == old(self).spec_current(),
    {
        match self.current {
            Some(c) => {
                proof {
                    assert(node_ok(self.nodes@, c as int));
                }
                let nd = &self.nodes[c];
                let next = match dir {
                    Dir::Left => nd.left,
                    Dir::Right => nd.right,
                    Dir::Up => nd.up,
                };
                match next {
                    Some(n) => {
                        self.current = Some(n);
                        Ok(())
                    },
                    None => Err(TreeError::DeadEnd),
                }
            },
            None => Err(TreeError::OpOnNone),
        }
    }

    /// Moves the cursor to its left child.
    pub fn go_left(&mut self) -> (r: Result<(), TreeError>)
        requires
            old(self).wf(),
        ensures
            final(self).wf(),
            final(self).spec_nodes() == old(self).spec_nodes(),
            final(self).spec_head() == old(self).spec_head(),
            old(self).spec_current() is None ==> r == Err::<(), TreeError>(TreeError::OpOnNone),
            old(self).spec_current() is Some ==> match old(self).cur_node().left {
                Some(n) => r is Ok && final(self).spec_current() == Some(n),
                None => r == Err::<(), TreeError>(TreeError::DeadEnd),
            },
            r is Err ==> final(self).spec_current() == old(self).spec_current(),
    {
        self.go(Dir::Left)
    }

    /// Moves the cursor to its right child.
    pub fn go_right(&mut self) -> (r: Result<(), TreeError>)
        requires
            old(self).wf(),
        ensures
            final(self).wf(),
            final(self).spec_nodes() == old(self).spec_nodes(),
            final(self).spec_head() == old(self).spec_head(),
            old(self).spec_current() is None ==> r == Err::<(), TreeError>(TreeError::OpOnNone),
            old(self).spec_current() is Some ==> match old(self).cur_node().right {
                Some(n) => r is Ok && final(self).spec_current() == Some(n),
                None => r == Err::<(), TreeError>(TreeError::DeadEnd),
            },
            r is Err ==> final(self).spec_current() == old(self).spec_current(),
    {
        self.go(Dir::Right)
    }

    /// Moves the cursor to its parent.
    pub fn go_up(&mut self) -> (r: Result<(), TreeError>)
        requires
            old(self).wf(),
        ensures
            final(self).wf(),
            final(self).spec_nodes() == old(self).spec_nodes(),
            final(self).spec_head() == old(self).spec_head(),
            old(self).spec_current() is None ==> r == Err::<(), TreeError>(TreeError::OpOnNone),
            old(self).spec_current() is Some ==> match old(self).cur_node().up {
                Some(n) => r is Ok && final(self).spec_current() == Some(n),
                None => r == Err::<(), TreeError>(TreeError::DeadEnd),
            },
            r is Err ==> final(self).spec_current() == old(self).spec_current(),
    {
        self.go(Dir::Up)
    }

    /// The value at the cursor.
    pub fn get_current(&self) -> (r: Result<&Option<T>, TreeError>)
        requires
            self.wf(),
        ensures
            match self.spec_current() {
                Some(c) => r == Ok::<&Option<T>, TreeError>(&self.spec_nodes()[c as int].value),
                None => r == Err::<&Option<T>, TreeError>(TreeError::OpOnNone),
            },
    {
        match self.current {
            Some(c) => Ok(&self.nodes[c].value),
            None => Err(TreeError::OpOnNone),
        }
    }

    fn get_child(&self, dir: Dir) -> (r: Result<&Option<T>, TreeError>)
        requires
            self.wf(),
        ensures
            self.spec_current() is None ==> r == Err::<&Option<T>, TreeError>(TreeError::OpOnNone),
            self.spec_current() is Some ==> match child_link(self.cur_node(), dir) {
                Some(n) => r == Ok::<&Option<T>, TreeError>(&self.spec_nodes()[n as int].value),
                None => r == Err::<&Option<T>, TreeError>(TreeError::OpOnNone),
            },
    {
        match self.current {
            Some(c) => {
                proof {
                    assert(node_ok(self.nodes@, c as int));
                }
                let nd = &self.nodes[c];
                let next = match dir {
                    Dir::Left => nd.left,
                    Dir::Right => nd.right,
                    Dir::Up => nd.up,
                };
                match next {
                    Some(n) => Ok(&self.nodes[n].value),
                    None => Err(TreeError::OpOnNone),
                }
            },
            None => Err(TreeError::OpOnNone),
        }
    }

    /// The value at the cursor's left child.
    pub fn get_left(&self) -> (r: Result<&Option<T>, TreeError>)
        requires
            self.wf(),
        ensures
            self.spec_current() is None ==> r == Err::<&Option<T>, TreeError>(TreeError::OpOnNone),
            self.spec_current() is Some ==> match self.cur_node().left {
                Some(n) => r == Ok::<&Option<T>, TreeError>(&self.spec_nodes()[n as int].value),
                None => r == Err::<&Option<T>, TreeError>(TreeError::OpOnNone),
            },
    {
        self.get_child(Dir::Left)
    }

    /// The value at the cursor's right child.
    pub fn get_right(&self) -> (r: Result<&Option<T>, TreeError>)
        requires
            self.wf(),
        ensures
            self.spec_current() is None ==> r == Err::<&Option<T>, TreeError>(TreeError::OpOnNone),
            self.spec_current() is Some ==> match self.cur_node().right {
                Some(n) => r == Ok::<&Option<T>, TreeError>(&self.spec_nodes()[n as int].value),
                None => r == Err::<&Option<T>, TreeError>(TreeError::OpOnNone),
            },
    {
        self.get_child(Dir::Right)
    }

    /// Stores `n` at the cursor; on a tree without nodes, creates the root
    /// and puts the cursor on it.
    pub fn set_current(&mut self, n: T)
        requires
            old(self).wf(),
            old(self).spec_nodes().len() < usize::MAX,
        ensures
            final(self).wf(),
            match old(self).spec_current() {
                Some(c) => {
                    &&& final(self).spec_nodes() == old(self).spec_nodes().update(
                        c as int,
                        with_value(old(self).spec_nodes()[c as int], n),
                    )
                    &&& final(self).spec_head() == old(self).spec_head()
                    &&& final(self).spec_current() == old(self).spec_current()
                },
                None => {
                    &&& final(self).spec_nodes() == seq![
                        Node { up: None, left: None, value: Some(n), right: None },
                    ]
                    &&& final(self).spec_head() == Some(0usize)
                    &&& final(self).spec_current() == Some(0usize)
                },
            },
    {
        match self.current {
            Some(c) => {
                self.nodes[c].value = Some(n);
                proof {
                    assert forall|i: int| 0 <= i < self.nodes@.len() implies node_ok(self.nodes@, i) by {
                        assert(node_ok(old(self).nodes@, i));
                    }
                }
            },
            None => {
                self.nodes.push(Node::new(n));
                self.current = Some(0);
                self.head = Some(0);
                proof {
                    assert(node_ok(self.nodes@, 0));
                    assert(self.nodes@ =~= seq![
                        Node { up: None, left: None, value: Some(n), right: None },
                    ]);
                }
            },
        }
    }

    fn set_child(&mut self, n: T, dir: Dir) -> (r: Result<(), TreeError>)
        requires
            old(self).wf(),
            old(self).spec_nodes().len() < usize::MAX,
            dir != Dir::Up,
        ensures
            final(self).wf(),
            final(self).spec_head() == old(self).spec_head(),
            final(self).spec_current() == old(self).spec_current(),
            old(self).spec_current() is None ==> r == Err::<(), TreeError>(TreeError::OpOnNone)
                && final(self).spec_nodes() == old(self).spec_nodes(),
            old(self).spec_current() matches Some(c) ==> r is Ok && match child_link(
                old(self).cur_node(),
                dir,
            ) {
                Some(s) => final(self).spec_nodes() == old(self).spec_nodes().update(
                    s as int,
                    with_value(old(self).spec_nodes()[s as int], n),
                ),
                None => final(self).spec_nodes() == old(self).spec_nodes().update(
                    c as int,
                    with_child(
                        old(self).cur_node(),
                        dir,
                        Some(old(self).spec_nodes().len() as usize),
                    ),
                ).push(Node { up: Some(c), left: None, value: Some(n), right: None }),
            },
    {
        match self.current {
            Some(c) => {
                proof {
                    assert(node_ok(self.nodes@, c as int));
                }
                let existing = if dir == Dir::Left {
                    self.nodes[c].left
                } else {
                    self.nodes[c].right
                };
                match existing {
                    Some(s) => {
                        self.nodes[s].value = Some(n);
                        proof {
                            assert forall|i: int| 0 <= i < self.nodes@.len() implies node_ok(
                                self.nodes@,
                                i,
                            ) by {
                                assert(node_ok(old(self).nodes@, i));
                            }
                        }
                    },
                    None => {
                        let k = self.nodes.len();
                        let mut nd = Node::new(n);
                        nd.up = Some(c);
                        self.nodes.push(nd);
                        if dir == Dir::Left {
                            self.nodes[c].set_left(Some(k));
                        } else {
                            self.nodes[c].set_right(Some(k));
                        }
                        proof {
                            assert forall|i: int| 0 <= i < self.nodes@.len() implies node_ok(
                                self.nodes@,
                                i,
                            ) by {
                                if i < k {
                                    assert(node_ok(old(self).nodes@, i));
                                }
                            }
                        }
                    },
                }
                Ok(())
            },
            None => Err(TreeError::OpOnNone),
        }
    }

    /// Stores `new` in the cursor's left child, creating that child if absent.
    pub fn set_child_left(&mut self, new: T) -> (r: Result<(), TreeError>)
        requires
            old(self).wf(),
            old(self).spec_nodes().len() < usize::MAX,
        ensures
            final(self).wf(),
            final(self).spec_head() == old(self).spec_head(),
            final(self).spec_current() == old(self).spec_current(),
            old(self).spec_current() is None ==> r == Err::<(), TreeError>(TreeError::OpOnNone)
                && final(self).spec_nodes() == old(self).spec_nodes(),
            old(self).spec_current() matches Some(c) ==> r is Ok && match old(self).cur_node().left {
                Some(s) => final(self).spec_nodes() == old(self).spec_nodes().update(
                    s as int,
                    with_value(old(self).spec_nodes()[s as int], new),
                ),
                None => final(self).spec_nodes() == old(self).spec_nodes().update(
                    c as int,
                    Node { left: Some(old(self).spec_nodes().len() as usize), ..old(self).cur_node() },
                ).push(Node { up: Some(c), left: None, value: Some(new), right: None }),
            },
    {
        self.set_child(new, Dir::Left)
    }

    /// Stores `new` in the cursor's right child, creating that child if absent.
    pub fn set_child_right(&mut self, new: T) -> (r: Result<(), TreeError>)
        requires
            old(self).wf(),
            old(self).spec_nodes().len() < usize::MAX,
        ensures
            final(self).wf(),
            final(self).spec_head() == old(self).spec_head(),
            final(self).spec_current() == old(self).spec_current(),
            old(self).spec_current() is None ==> r == Err::<(), TreeError>(TreeError::OpOnNone)
                && final(self).spec_nodes() == old(self).spec_nodes(),
            old(self).spec_current() matches Some(c) ==> r is Ok && match old(self).cur_node().right {
                Some(s) => final(self).spec_nodes() == old(self).spec_nodes().update(
                    s as int,
                    with_value(old(self).spec_nodes()[s as int], new),
                ),
                None => final(self).spec_nodes() == old(self).spec_nodes().update(
                    c as int,
                    Node { right: Some(old(self).spec_nodes().len() as usize), ..old(self).cur_node() },
                ).push(Node { up: Some(c), left: None, value: Some(new), right: None }),
            },
    {
        self.set_child(new, Dir::Right)
    }

    fn push(&mut self, new_head: T, dir: Dir) -> (r: Result<(), TreeError>)
        requires
            old(self).wf(),
            old(self).spec_nodes().len() < usize::MAX,
            dir != Dir::Up,
        ensures
            final(self).wf(),
            final(self).spec_current() == old(self).spec_current(),
            old(self).spec_current() is None ==> r == Err::<(), TreeError>(TreeError::OpOnNone)
                && final(self).spec_nodes() == old(self).spec_nodes()
                && final(self).spec_head() == old(self).spec_head(),
            old(self).spec_current() matches Some(c) ==> {
                &&& r is Ok
                &&& final(self).spec_nodes() == spliced(old(self).spec_nodes(), c as int, new_head, dir)
                &&& final(self).spec_head() == if old(self).spec_head() == Some(c) {
                    Some(old(self).spec_nodes().len() as usize)
                } else {
                    old(self).spec_head()
                }
            },
    {
        match self.current {
            Some(c) => {
                proof {
                    assert(node_ok(self.nodes@, c as int));
                }
                let ghost ns = self.nodes@;
                let k = self.nodes.len();
                let up = self.nodes[c].up;
                let mut nd = Node::new(new_head);
                nd.up = up;
                if dir == Dir::Left {
                    nd.left = Some(c);
                } else {
                    nd.right = Some(c);
                }
                self.nodes[c].up = Some(k);
                match up {
                    Some(p) => {
                        proof {
                            assert(node_ok(ns, p as int));
                        }
                        if self.nodes[p].left == Some(c) {
                            self.nodes[p].left = Some(k);
                        } else {
                            self.nodes[p].right = Some(k);
                        }
                    },
                    None => {},
                }
                self.nodes.push(nd);
                if self.head == Some(c) {
                    self.head = Some(k);
                }
                proof {
                    assert(self.nodes@ =~= spliced(ns, c as int, new_head, dir));
                    assert forall|i: int| 0 <= i < self.nodes@.len() implies node_ok(
                        self.nodes@,
                        i,
                    ) by {
                        if i < k {
                            assert(node_ok(ns, i));
                            let nd0 = ns[i];
                            if let Some(x) = nd0.left {
                                assert(node_ok(ns, x as int));
                            }
                            if let Some(x) = nd0.right {
                                assert(node_ok(ns, x as int));
                            }
                            if let Some(x) = nd0.up {
                                assert(node_ok(ns, x as int));
                            }
                        }
                    }
                }
                Ok(())
            },
            None => Err(TreeError::OpOnNone),
        }
    }

    /// Inserts a node holding `new_head` above the cursor, which becomes its
    /// left child; the new node takes the cursor's place under its parent, or
    /// becomes the root when the cursor was the root. The cursor stays.
    pub fn push_left(&mut self, new_head: T) -> (r: Result<(), TreeError>)
        requires
            old(self).wf(),
            old(self).spec_nodes().len() < usize::MAX,
        ensures
            final(self).wf(),
            final(self).spec_current() == old(self).spec_current(),
            old(self).spec_current() is None ==> r == Err::<(), TreeError>(TreeError::OpOnNone)
                && final(self).spec_nodes() == old(self).spec_nodes()
                && final(self).spec_head() == old(self).spec_head(),
            old(self).spec_current() matches Some(c) ==> {
                &&& r is Ok
                &&& final(self).spec_nodes() == spliced(
                    old(self).spec_nodes(),
                    c as int,
                    new_head,
                    Dir::Left,
                )
                &&& final(self).spec_head() == if old(self).spec_head() == Some(c) {
                    Some(old(self).spec_nodes().len() as usize)
                } else {
                    old(self).spec_head()
                }
            },
    {
        self.push(new_head, Dir::Left)
    }

    /// Inserts a node holding `new_head` above the cursor, which becomes its
    /// right child; otherwise as `push_left`.
    pub fn push_right(&mut self, new_head: T) -> (r: Result<(), TreeError>)
        requires
            old(self).wf(),
            old(self).spec_nodes().len() < usize::MAX,
        ensures
            final(self).wf(),
            final(self).spec_current() == old(self).spec_current(),
            old(self).spec_current() is None ==> r == Err::<(), TreeError>(TreeError::OpOnNone)
                && final(self).spec_nodes() == old(self).spec_nodes()
                && final(self).spec_head() == old(self).spec_head(),
            old(self).spec_current() matches Some(c) ==> {
                &&& r is Ok
                &&& final(self).spec_nodes() == spliced(
                    old(self).spec_nodes(),
                    c as int,
                    new_head,
                    Dir::Right,
                )
                &&& final(self).spec_head() == if old(self).spec_head() == Some(c) {
                    Some(old(self).spec_nodes().len() as usize)
                } else {
                    old(self).spec_head()
                }
            },
    {
        self.push(new_head, Dir::Right)
    }

    /// Puts the cursor on the stored node `i`.
    pub(crate) fn move_to(&mut self, i: usize)
        requires
            old(self).wf(),
            i < old(self).spec_nodes().len(),
        ensures
            final(self).wf(),
            final(self).spec_nodes() == old(self).spec_nodes(),
            final(self).spec_head() == old(self).spec_head(),
            final(self).spec_current() == Some(i),
    {
        self.current = Some(i);
    }

    fn dump_rec(&self, i: usize, depth: usize, fuel: usize, out: &mut Vec<(usize, usize)>)
        requires
            self.wf(),
            depth + fuel < usize::MAX,
        ensures
            lines_view(final(out)@) == lines_view(old(out)@) + dump_lines(
                self.spec_nodes(),
                i as int,
                depth as nat,
                fuel as nat,
            ),
        decreases fuel,
    {
        if fuel == 0 || i >= self.len() {
            proof {
                assert(lines_view(out@) =~= lines_view(out@) + Seq::<(nat, nat)>::empty());
            }
            return;
        }
        let ghost o0 = out@;
        let nd = self.node(i);
        match nd.right {
            Some(r) => self.dump_rec(r, depth + 1, fuel - 1, out),
            None => {},
        }
        let ghost o1 = out@;
        out.push((depth, i));
        let ghost o2 = out@;
        match nd.left {
            Some(l) => self.dump_rec(l, depth + 1, fuel - 1, out),
            None => {},
        }
        proof {
            let ns = self.spec_nodes();
            let right = match ns[i as int].right {
                Some(r) => dump_lines(ns, r as int, depth as nat + 1, (fuel - 1) as nat),
                None => seq![],
            };
            let left = match ns[i as int].left {
                Some(l) => dump_lines(ns, l as int, depth as nat + 1, (fuel - 1) as nat),
                None => seq![],
            };
            assert(lines_view(o1) =~= lines_view(o0) + right);
            assert(lines_view(o2) =~= lines_view(o1).push((depth as nat, i as nat)));
            assert(lines_view(out@) =~= lines_view(o2) + left);
            assert(lines_view(out@) =~= lines_view(o0) + (right.push((depth as nat, i as nat))
                + left));
        }
    }

    /// The lines of a dump of the whole tree, as (depth, node index) pairs:
    /// right subtree first, then the node, then its left subtree, with the
    /// root at depth 0. Empty for a tree without nodes.
    pub fn display_tree(&self) -> (r: Vec<(usize, usize)>)
        requires
            self.wf(),
            self.spec_nodes().len() < usize::MAX,
        ensures
            lines_view(r@) == match self.spec_head() {
                Some(h) => dump_lines(self.spec_nodes(), h as int, 0, self.spec_nodes().len() as nat),
                None => seq![],
            },
    {
        let mut out: Vec<(usize, usize)> = Vec::new();
        proof {
            assert(lines_view(out@) =~= Seq::<(nat, nat)>::empty());
        }
        match self.head {
            Some(h) => self.dump_rec(h, 0, self.nodes.len(), &mut out),
            None => {},
        }
        proof {
            assert(lines_view(out@) =~= match self.spec_head() {
                Some(h) => Seq::<(nat, nat)>::empty() + dump_lines(
                    self.spec_nodes(),
                    h as int,
                    0,
                    self.spec_nodes().len() as nat,
                ),
                None => seq![],
            });
        }
        out
    }
}

/// Inserting a node holding `v` above the cursor of a well-formed tree, when
/// the cursor has a parent, leaves the cursor's parent link on the new node,
/// which holds `v`, keeps the cursor as its child on side `dir`, and sits under
/// the cursor's former parent on the side where the cursor stood. So going up
/// and then along `dir` leads back to the cursor, and the former parent reaches
/// `v` along the cursor's former side.
pub proof fn lemma_splice_links<T>(t: Tree<T>, v: T, dir: Dir)
    requires
        t.wf(),
        t.spec_current() is Some,
        t.cur_node().up is Some,
        t.spec_nodes().len() < usize::MAX,
        dir != Dir::Up,
    ensures
        ({
            let ns = t.spec_nodes();
            let c = t.spec_current()->Some_0;
            let p = ns[c as int].up->Some_0;
            let n = ns.len() as usize;
            let ns2 = spliced(ns, c as int, v, dir);
            &&& ns2[c as int].up == Some(n)
            &&& ns2[n as int].value == Some(v)
            &&& ns2[n as int].up == Some(p)
            &&& child_link(ns2[n as int], dir) == Some(c)
            &&& child_link(ns2[n as int], if dir == Dir::Left {
                Dir::Right
            } else {
                Dir::Left
            }) is None
            &&& ns2.len() == ns.len() + 1
            &&& forall|i: int| 0 <= i < ns.len() ==> (#[trigger] ns2[i]).value == ns[i].value
            &&& (ns[p as int].left == Some(c) ==> ns2[p as int].right == ns[p as int].right)
            &&& (ns[p as int].left != Some(c) ==> ns2[p as int].left == ns[p as int].left)
            &&& (ns[p as int].left == Some(c) ==> ns2[p as int].left == Some(n))
            &&& (ns[p as int].left != Some(c) ==> ns[p as int].right == Some(c) && ns2[p as int].right
                == Some(n))
        }),
{
    let ns = t.spec_nodes();
    let c = t.spec_current()->Some_0;
    assert(node_ok(ns, c as int));
    let p = ns[c as int].up->Some_0;
    assert(node_ok(ns, p as int));
}

} // verus!
