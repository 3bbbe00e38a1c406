//! Hash collections that generation remembers things in.

use rustc_hash::FxHashMap;
use smallvec::SmallVec;
use vstd::prelude::*;

verus! {

/// Which place a digest was last seen at.
#[verifier::external_body]
pub struct SeenDigests {
    inner: FxHashMap<u64, usize>,
}

/// What a digest table holds.
pub uninterp spec fn seen_places(m: SeenDigests) -> Map<u64, usize>;

impl View for SeenDigests {
    type V = Map<u64, usize>;

    open spec fn view(&self) -> Map<u64, usize> {
        seen_places(*self)
    }
}

impl SeenDigests {
    /// `FxHashMap::default`: the table that holds nothing.
    #[verifier::external_body]
    pub(crate) fn new() -> (m: SeenDigests)
        ensures
            forall|d: u64| !(#[trigger] seen_places(m).contains_key(d)),
    {
        SeenDigests { inner: FxHashMap::default() }
    }

    /// `FxHashMap::get`: the place held for a digest, if one is.
    #[verifier::external_body]
    pub(crate) fn get(&self, d: u64) -> (at: Option<usize>)
        ensures
            at == (if seen_places(*self).contains_key(d) {
                Some(seen_places(*self)[d])
            } else {
                None
            }),
    {
        self.inner.get(&d).copied()
    }

    /// `FxHashMap::insert`: the table with a digest's place replaced.
    #[verifier::external_body]
    pub(crate) fn insert(&mut self, d: u64, at: usize)
        ensures
            seen_places(*final(self)) == seen_places(*old(self)).insert(d, at),
    {
        self.inner.insert(d, at);
    }
}

/// The nodes of a search, filed under words.
#[verifier::external_body]
pub struct NodeIndex {
    inner: FxHashMap<u64, SmallVec<[u32; 2]>>,
}

/// What an index of nodes holds.
pub uninterp spec fn nodes_filed(t: NodeIndex) -> Map<u64, Seq<u32>>;

/// The nodes filed under a word, in the order they came.
pub open spec fn filed_under(t: NodeIndex, d: u64) -> Seq<u32> {
    if nodes_filed(t).contains_key(d) {
        nodes_filed(t)[d]
    } else {
        Seq::empty()
    }
}

impl NodeIndex {
    /// `FxHashMap::default`: the index that holds nothing.
    #[verifier::external_body]
    pub(crate) fn new() -> (t: NodeIndex)
        ensures
            forall|d: u64| !(#[trigger] nodes_filed(t).contains_key(d)),
    {
        NodeIndex { inner: FxHashMap::default() }
    }

    /// `FxHashMap::get` and `SmallVec`'s slice: the node at a place under a word,
    /// if there is one.
    #[verifier::external_body]
    pub(crate) fn at(&self, d: u64, i: usize) -> (r: Option<u32>)
        ensures
            r == (if nodes_filed(*self).contains_key(d) && i < nodes_filed(*self)[d].len() {
                Some(nodes_filed(*self)[d][i as int])
            } else {
                None
            }),
    {
        self.inner.get(&d).and_then(|b| b.as_slice().get(i)).copied()
    }

    /// `FxHashMap::entry` with `SmallVec::push`: the index with a node filed
    /// behind those already under a word.
    #[verifier::external_body]
    pub(crate) fn file(&mut self, d: u64, i: u32)
        ensures
            nodes_filed(*final(self)) == nodes_filed(*old(self)).insert(
                d,
                filed_under(*old(self), d).push(i),
            ),
    {
        self.inner.entry(d).or_default().push(i);
    }

    /// `FxHashMap::clear`: the index with nothing left in it.
    #[verifier::external_body]
    pub(crate) fn clear(&mut self)
        ensures
            forall|d: u64| !(#[trigger] nodes_filed(*final(self)).contains_key(d)),
    {
        self.inner.clear();
    }
}

} // verus!
