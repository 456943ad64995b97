//! Layer-by-layer construction of a flat tree from directory listings.
use vstd::prelude::*;
use crate::entry::{FileEntry, same_entry};
use crate::error::{EditorIoError, ErrorType};
use crate::flat_tree::{FlatTree, built};

verus! {

/// The directories among `entries`, in their order.
pub open spec fn dirs_of(entries: Seq<FileEntry>) -> Seq<FileEntry> {
    entries.filter(|e: FileEntry| e.is_dir)
}

/// All entries of all `listings`, one listing after another.
pub open spec fn concat_listings(listings: Seq<Vec<FileEntry>>) -> Seq<FileEntry>
    decreases listings.len(),
{
    if listings.len() == 0 {
        seq![]
    } else {
        concat_listings(listings.drop_last()) + listings.last()@
    }
}

/// `a` and `b` hold the same entries in the same order.
pub open spec fn same_entries(a: Seq<FileEntry>, b: Seq<FileEntry>) -> bool {
    a.len() == b.len() && forall|i: int| 0 <= i < a.len() ==> same_entry(#[trigger] a[i], b[i])
}

/// Builds a [`FlatTree`] one directory layer at a time, without recursion.
///
/// `current` is the layer waiting to go into the tree; `next` the directories
/// whose listings make up the layer after it. The caller lists directories:
/// after [`TreeBuilder::build_tree_layer`] it takes the pending directories with
/// [`TreeBuilder::take_pending`], lists each one level deep, and hands the
/// listings back through [`TreeBuilder::get_next`], until no layer is left.
pub struct TreeBuilder {
    current: Option<Vec<FileEntry>>,
    next: Option<Vec<FileEntry>>,
    tree: FlatTree,
}

impl TreeBuilder {
    /// The layer waiting to go into the tree.
    pub closed spec fn current(&self) -> Option<Seq<FileEntry>> {
        match self.current {
            Some(v) => Some(v@),
            None => None,
        }
    }

    /// The directories whose listings make up the following layer.
    pub closed spec fn pending(&self) -> Option<Seq<FileEntry>> {
        match self.next {
            Some(v) => Some(v@),
            None => None,
        }
    }

    /// The tree built so far.
    pub closed spec fn tree(&self) -> FlatTree {
        self.tree
    }

    /// Starts a build from the listing of the root directory: the listing is the
    /// first layer and its directories are pending. A failed listing is
    /// returned as it is.
    pub fn init(listing: Result<Vec<FileEntry>, EditorIoError>) -> (r: Result<TreeBuilder, EditorIoError>)
        ensures
            listing is Err <==> r is Err,
            listing matches Err(e) ==> r == Err::<TreeBuilder, EditorIoError>(e),
            r matches Ok(b) ==> {
                &&& b.tree().wf()
                &&& b.tree().nodes().len() == 0
                &&& b.tree().next_id() == 1
                &&& b.current() == Some(listing->Ok_0@)
                &&& (b.pending() matches Some(p) && same_entries(p, dirs_of(listing->Ok_0@)))
            },
    {
        match listing {
            Ok(dir) => {
                let nested = directories_in(&dir);
                Ok(TreeBuilder { current: Some(dir), next: Some(nested), tree: FlatTree::new() })
            },
            Err(err) => Err(err),
        }
    }

    /// Feeds the waiting layer into the tree and returns true; returns false,
    /// changing nothing, when no layer is waiting.
    pub fn build_tree_layer(&mut self) -> (r: bool)
        requires
            old(self).tree().wf(),
        ensures
            final(self).tree().wf(),
            r == old(self).current() is Some,
            final(self).current() is None,
            final(self).pending() == old(self).pending(),
            !r ==> final(self).tree() == old(self).tree(),
            old(self).current() matches Some(e) ==> built(old(self).tree(), e, final(self).tree()),
    {
        match self.current.take() {
            Some(layer) => {
                self.tree.build(&layer);
                true
            },
            None => false,
        }
    }

    /// Hands out the pending directories, which leaves none pending. Fails with
    /// `Interrupted`, changing nothing, while a layer is still waiting: it would
    /// be overwritten unconsumed.
    pub fn take_pending(&mut self) -> (r: Result<Vec<FileEntry>, EditorIoError>)
        ensures
            final(self).tree() == old(self).tree(),
            final(self).current() == old(self).current(),
            old(self).current() is Some ==> r is Err && final(self).pending() == old(self).pending(),
            r matches Err(e) ==> e.error_type == ErrorType::Interrupted,
            old(self).current() is None ==> {
                &&& r is Ok
                &&& final(self).pending() is None
                &&& r->Ok_0@ == match old(self).pending() {
                    Some(p) => p,
                    None => seq![],
                }
            },
    {
        if self.current.is_some() {
            return Err(EditorIoError::new("Overwriting file entries", ErrorType::Interrupted));
        }
        match self.next.take() {
            Some(dirs) => Ok(dirs),
            None => Ok(Vec::new()),
        }
    }

    /// Takes the listings of the pending directories as the next layer, once
    /// the waiting layer has gone into the tree: their
    /// entries wait to go into the tree, and the directories among them are
    /// pending. An empty layer leaves nothing waiting, and no directories leave
    /// nothing pending.
    pub fn get_next(&mut self, listings: Vec<Vec<FileEntry>>)
        requires
            old(self).current() is None,
        ensures
            final(self).tree() == old(self).tree(),
            concat_listings(listings@).len() == 0 ==> final(self).current() is None,
            concat_listings(listings@).len() > 0 ==> (final(self).current() matches Some(c) && same_entries(
                c,
                concat_listings(listings@),
            )),
            dirs_of(concat_listings(listings@)).len() == 0 ==> final(self).pending() is None,
            dirs_of(concat_listings(listings@)).len() > 0 ==> (final(self).pending() matches Some(p)
                && same_entries(p, dirs_of(concat_listings(listings@)))),
    {
        let mut items: Vec<FileEntry> = Vec::new();
        let mut k: usize = 0;
        while k < listings.len()
            invariant
                k <= listings@.len(),
                same_entries(items@, concat_listings(listings@.take(k as int))),
            decreases listings@.len() - k,
        {
            proof {
                assert(listings@.take(k + 1).drop_last() =~= listings@.take(k as int));
            }
            let listing = &listings[k];
            let mut j: usize = 0;
            let ghost base = items@;
            while j < listing.len()
                invariant
                    j <= listing@.len(),
                    listing@ == listings@[k as int]@,
                    items@.len() == base.len() + j,
                    forall|a: int| 0 <= a < base.len() ==> #[trigger] items@[a] == base[a],
                    forall|a: int| 0 <= a < j ==> same_entry(#[trigger] items@[base.len() + a], listing@[a]),
                decreases listing@.len() - j,
            {
                items.push(listing[j].duplicate());
                j = j + 1;
            }
            proof {
                let c0 = concat_listings(listings@.take(k as int));
                let c1 = concat_listings(listings@.take(k + 1));
                assert(c1 == c0 + listings@[k as int]@);
                assert forall|a: int| 0 <= a < items@.len() implies same_entry(#[trigger] items@[a], c1[a]) by {
                    if a >= base.len() {
                        assert(same_entry(items@[base.len() + (a - base.len())], listing@[a - base.len()]));
                    }
                }
            }
            k = k + 1;
        }
        assert(listings@.take(listings@.len() as int) =~= listings@);
        let dirs = directories_in(&items);
        proof {
            lemma_dirs_of_same(items@, concat_listings(listings@));
        }
        self.current = if items.len() == 0 {
            None
        } else {
            Some(items)
        };
        self.next = if dirs.len() == 0 {
            None
        } else {
            Some(dirs)
        };
    }

    /// Whether no layer is waiting to go into the tree.
    pub fn is_finished(&self) -> (r: bool)
        ensures
            r == self.current() is None,
    {
        self.current.is_none()
    }

    /// The tree built so far.
    pub fn get_tree(&self) -> (r: &FlatTree)
        ensures
            *r == self.tree(),
    {
        &self.tree
    }

    /// The tree built so far, ending the build.
    pub fn into_tree(self) -> (r: FlatTree)
        ensures
            r == self.tree(),
    {
        self.tree
    }
}

proof fn lemma_dirs_of_same(a: Seq<FileEntry>, b: Seq<FileEntry>)
    requires
        same_entries(a, b),
    ensures
        same_entries(dirs_of(a), dirs_of(b)),
    decreases a.len(),
{
    reveal(Seq::filter);
    if a.len() > 0 {
        lemma_dirs_of_same(a.drop_last(), b.drop_last());
        assert(a.drop_last().push(a.last()) =~= a);
        assert(b.drop_last().push(b.last()) =~= b);
        assert(same_entry(a[a.len() - 1], b[b.len() - 1]));
    }
}

/// Copies of the directories among `entries`, in their order.
fn directories_in(entries: &Vec<FileEntry>) -> (r: Vec<FileEntry>)
    ensures
        same_entries(r@, dirs_of(entries@)),
{
    let mut r: Vec<FileEntry> = Vec::new();
    let mut k: usize = 0;
    while k < entries.len()
        invariant
            k <= entries@.len(),
            same_entries(r@, dirs_of(entries@.take(k as int))),
        decreases entries@.len() - k,
    {
        proof {
            reveal(Seq::filter);
            assert(entries@.take(k + 1).drop_last() =~= entries@.take(k as int));
        }
        if entries[k].is_dir {
            r.push(entries[k].duplicate());
        }
        k = k + 1;
    }
    assert(entries@.take(entries@.len() as int) =~= entries@);
    r
}

} // verus!
