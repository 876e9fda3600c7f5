use vstd::prelude::*;

verus! {

/// What a path turned out to be when it was looked at.
pub enum EntryKind {
    /// A regular file.
    File,
    /// A directory, with the paths of its entries in listing order.
    Dir(Vec<String>),
    /// Anything else (a broken link, a device): skipped.
    Other,
}

/// The state of a depth-first walk below one root: the paths still to look
/// at, the next one last, and the regular files found so far.
pub struct Walker {
    pending: Vec<String>,
    files: Vec<String>,
}

/// The characters of each string.
pub open spec fn path_views(s: Seq<String>) -> Seq<Seq<char>> {
    s.map_values(|x: String| x@)
}

/// The paths of a listing, pushed so that the first entry comes out first.
pub open spec fn stacked<A>(children: Seq<A>) -> Seq<A> {
    Seq::new(children.len(), |i: int| children[children.len() - 1 - i])
}

impl Walker {
    /// Paths still to look at; the last one is looked at next.
    pub closed spec fn pending(&self) -> Seq<Seq<char>> {
        path_views(self.pending@)
    }

    /// Regular files found so far, in the order of discovery.
    pub closed spec fn found(&self) -> Seq<Seq<char>> {
        path_views(self.files@)
    }

    /// A walk that starts at `root`.
    pub fn new(root: String) -> (w: Walker)
        ensures
            w.pending() == seq![root@],
            w.found() == Seq::<Seq<char>>::empty(),
    {
        let mut pending: Vec<String> = Vec::new();
        let ghost r = root@;
        pending.push(root);
        let w = Walker { pending, files: Vec::new() };
        assert(w.pending() =~= seq![r]);
        assert(w.found() =~= Seq::<Seq<char>>::empty());
        w
    }

    /// Whether no path is left to look at.
    pub fn is_done(&self) -> (r: bool)
        ensures
            r == (self.pending().len() == 0),
    {
        self.pending.len() == 0
    }

    /// Takes the next path to look at, if any.
    pub fn next_path(&mut self) -> (r: Option<String>)
        ensures
            old(self).pending().len() == 0 ==> r is None && final(self).pending() == old(self).pending(),
            old(self).pending().len() > 0 ==> r is Some && r->0@ == old(self).pending().last()
                && final(self).pending() == old(self).pending().drop_last(),
            final(self).found() == old(self).found(),
    {
        let r = self.pending.pop();
        proof {
            if old(self).pending@.len() > 0 {
                assert(self.pending() =~= old(self).pending().drop_last());
            }
        }
        r
    }

    /// Records what `path`, the last path taken, is: a regular file joins the
    /// files found, a directory's entries are queued so that they are looked
    /// at in listing order before anything queued earlier, and anything else
    /// is skipped.
    pub fn record(&mut self, path: String, kind: EntryKind)
        ensures
            kind is File ==> final(self).found() == old(self).found().push(path@)
                && final(self).pending() == old(self).pending(),
            kind is Dir ==> final(self).found() == old(self).found()
                && final(self).pending() == old(self).pending() + stacked(path_views(kind->Dir_0@)),
            kind is Other ==> final(self).found() == old(self).found()
                && final(self).pending() == old(self).pending(),
    {
        match kind {
            EntryKind::File => {
                self.files.push(path);
                proof {
                    assert(self.found() =~= old(self).found().push(path@));
                }
            },
            EntryKind::Dir(mut children) => {
                let ghost start = self.pending@;
                let ghost all = path_views(children@);
                let n = children.len();
                let mut k: usize = 0;
                while k < n
                    invariant
                        k <= n,
                        n == all.len(),
                        children@.len() == n - k,
                        path_views(children@) == all.take(n - k),
                        self.files@ == old(self).files@,
                        path_views(self.pending@) == path_views(start) + stacked(all).take(k as int),
                    decreases n - k,
                {
                    let ghost before = children@;
                    let ghost queued = self.pending@;
                    let c = children.pop().unwrap();
                    self.pending.push(c);
                    proof {
                        assert(path_views(before)[n - k - 1] == all.take(n - k)[n - k - 1]);
                        assert(c@ == all[n - 1 - k]);
                        assert(path_views(children@) =~= all.take(n - k - 1)) by {
                            assert forall|t: int| 0 <= t < n - k - 1 implies path_views(children@)[t] == all[t] by {
                                assert(path_views(before)[t] == all.take(n - k)[t]);
                            }
                        }
                        assert(path_views(self.pending@) =~= path_views(queued).push(c@));
                        assert(stacked(all).take(k + 1) =~= stacked(all).take(k as int).push(c@));
                        assert(path_views(self.pending@) =~= path_views(start) + stacked(all).take(k + 1));
                    }
                    k = k + 1;
                }
                proof {
                    assert(stacked(all).take(n as int) =~= stacked(all));
                }
            },
            EntryKind::Other => {},
        }
    }

    /// The regular files found, in the order of discovery.
    pub fn into_files(self) -> (r: Vec<String>)
        ensures
            path_views(r@) == self.found(),
    {
        self.files
    }
}


/// A directory tree as a walk sees it: what each path is.
pub enum Tree {
    File,
    Dir(Seq<(Seq<char>, Tree)>),
    Other,
}

/// The regular files of the tree `t` at `path`, depth first, each
/// directory's entries in listing order.
pub open spec fn tree_files(path: Seq<char>, t: Tree) -> Seq<Seq<char>>
    decreases t,
{
    match t {
        Tree::File => seq![path],
        Tree::Other => Seq::empty(),
        Tree::Dir(children) => forest_files(children),
    }
}

/// The regular files of the trees `children`, one after the other.
pub open spec fn forest_files(children: Seq<(Seq<char>, Tree)>) -> Seq<Seq<char>>
    decreases children,
{
    if children.len() == 0 {
        Seq::empty()
    } else {
        proof {
            assert(decreases_to!(children => children[0]));
            assert(children.drop_first() =~= children.subrange(1, children.len() as int));
            vstd::seq::axiom_seq_subrange_decreases(children, 1, children.len() as int);
        }
        tree_files(children[0].0, children[0].1) + forest_files(children.drop_first())
    }
}

/// The regular files below the pending paths of a walk, the last pending
/// path first.
pub open spec fn pending_files(stack: Seq<(Seq<char>, Tree)>) -> Seq<Seq<char>>
    decreases stack.len(),
{
    if stack.len() == 0 {
        Seq::empty()
    } else {
        tree_files(stack.last().0, stack.last().1) + pending_files(stack.drop_last())
    }
}

proof fn lemma_pending_stacked(stack: Seq<(Seq<char>, Tree)>, children: Seq<(Seq<char>, Tree)>)
    ensures
        pending_files(stack + stacked(children)) == forest_files(children) + pending_files(stack),
    decreases children.len(),
{
    if children.len() == 0 {
        assert(stack + stacked(children) =~= stack);
        assert(forest_files(children) + pending_files(stack) =~= pending_files(stack));
    } else {
        let all = stack + stacked(children);
        assert(all.last() == children[0]);
        assert(all.drop_last() =~= stack + stacked(children.drop_first()));
        lemma_pending_stacked(stack, children.drop_first());
        assert(pending_files(all) =~= forest_files(children) + pending_files(stack));
    }
}

/// A walk started at `root` has exactly the regular files of its tree
/// ahead of it.
pub proof fn lemma_walk_start(root: Seq<char>, t: Tree)
    ensures
        pending_files(seq![(root, t)]) == tree_files(root, t),
{
    let s = seq![(root, t)];
    assert(s.drop_last() =~= Seq::<(Seq<char>, Tree)>::empty());
    assert(s.last() == (root, t));
    assert(pending_files(s.drop_last()) == Seq::<Seq<char>>::empty());
    assert(tree_files(root, t) + Seq::<Seq<char>>::empty() =~= tree_files(root, t));
}

/// Each step of a walk keeps what lies ahead of it: taking the last pending
/// path and recording it as `record` does (a regular file is found, a
/// directory's entries are queued by `stacked`, anything else is dropped)
/// leaves the files found so far followed by those below the pending paths
/// unchanged. Started by `lemma_walk_start` and run until nothing is
/// pending, a walk therefore finds each regular file of the tree once, in
/// depth-first listing order.
pub proof fn lemma_walk_step(stack: Seq<(Seq<char>, Tree)>, path: Seq<char>, t: Tree)
    ensures
        t is File ==> pending_files(stack.push((path, t))) == seq![path] + pending_files(stack),
        t is Dir ==> pending_files(stack.push((path, t))) == pending_files(stack + stacked(t->Dir_0)),
        t is Other ==> pending_files(stack.push((path, t))) == pending_files(stack),
{
    let s = stack.push((path, t));
    assert(s.last() == (path, t));
    assert(s.drop_last() =~= stack);
    match t {
        Tree::Dir(children) => {
            lemma_pending_stacked(stack, children);
            assert(tree_files(path, t) == forest_files(children));
            assert(pending_files(s) == tree_files(path, t) + pending_files(stack));
        },
        Tree::Other => {
            assert(pending_files(s) =~= pending_files(stack));
        },
        Tree::File => {},
    }
}

} // verus!
