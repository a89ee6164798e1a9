use vstd::prelude::*;

verus! {

broadcast use vstd::seq_lib::group_seq_properties;

/// How many instances a chunk holds at most.
pub const CHUNK_SIZE: usize = 1024;

/// A run of instances drawn together, and whether it changed since it was last uploaded.
pub struct Chunk<T> {
    instances: Vec<T>,
    dirty: bool,
}

/// Instances kept in chunks of at most `CHUNK_SIZE`, filled one after another: every chunk but
/// the last is full.
pub struct ChunkList<T> {
    chunks: Vec<Chunk<T>>,
}

/// Filling the last of a list of runs with one more item appends that item to the list.
pub proof fn lemma_flatten_grow_last<T>(s: Seq<Seq<T>>, x: T)
    requires
        s.len() > 0,
    ensures
        s.update(s.len() - 1, s.last().push(x)).flatten() == s.flatten().push(x),
{
    let init = s.drop_last();
    assert(s =~= init.push(s.last()));
    assert(s.update(s.len() - 1, s.last().push(x)) =~= init.push(s.last().push(x)));
    init.lemma_flatten_push(s.last());
    init.lemma_flatten_push(s.last().push(x));
    assert(init.flatten() + s.last().push(x) =~= (init.flatten() + s.last()).push(x));
}

/// In runs that are all full but the last, the item at place `p` of run `c` is item
/// `c * CHUNK_SIZE + p` of the whole list, and the list is that long.
proof fn lemma_flatten_full_runs<T>(s: Seq<Seq<T>>)
    requires
        forall|c: int| 0 <= c < s.len() - 1 ==> (#[trigger] s[c]).len() == CHUNK_SIZE,
    ensures
        s.len() > 0 ==> s.flatten().len() == (s.len() - 1) * CHUNK_SIZE + s.last().len(),
        forall|c: int, p: int|
            0 <= c < s.len() && 0 <= p < s[c].len() ==> s.flatten()[c * CHUNK_SIZE + p] == #[trigger] s[c][p],
    decreases s.len(),
{
    if s.len() > 0 {
        let init = s.drop_last();
        lemma_flatten_full_runs(init);
        assert(s =~= init.push(s.last()));
        init.lemma_flatten_push(s.last());
        if init.len() > 0 {
            assert(init.last() == s[init.len() - 1]);
        }
        let flat_init_len = init.len() * CHUNK_SIZE;
        assert(init.flatten().len() == flat_init_len) by {
            if init.len() > 0 {
                assert(init.last().len() == CHUNK_SIZE);
            }
        }
        assert forall|c: int, p: int| 0 <= c < s.len() && 0 <= p < s[c].len() implies s.flatten()[c * CHUNK_SIZE + p]
            == #[trigger] s[c][p] by {
            if c < init.len() {
                assert(init[c] == s[c]);
                assert(c * CHUNK_SIZE + p < flat_init_len) by (nonlinear_arith)
                    requires
                        c < init.len(),
                        p < CHUNK_SIZE,
                        flat_init_len == init.len() * CHUNK_SIZE,
                ;
            } else {
                assert(c * CHUNK_SIZE == flat_init_len);
            }
        }
    }
}

/// The places of the first `n` flags that are set, in order.
pub open spec fn dirty_indices(flags: Seq<bool>, n: int) -> Seq<usize>
    decreases n,
{
    if n <= 0 {
        Seq::empty()
    } else {
        dirty_indices(flags, n - 1) + if flags[n - 1] {
            seq![(n - 1) as usize]
        } else {
            Seq::empty()
        }
    }
}

/// Flags that are all clear name no place.
pub proof fn lemma_clean_flags_name_nothing(flags: Seq<bool>, n: int)
    requires
        0 <= n <= flags.len(),
        forall|c: int| 0 <= c < flags.len() ==> !#[trigger] flags[c],
    ensures
        dirty_indices(flags, n) == Seq::<usize>::empty(),
    decreases n,
{
    if n > 0 {
        lemma_clean_flags_name_nothing(flags, n - 1);
        assert(dirty_indices(flags, n) =~= Seq::<usize>::empty());
    }
}

impl<T> ChunkList<T> {
    /// Every chunk holds at most `CHUNK_SIZE` instances, and every chunk but the last exactly that.
    pub closed spec fn wf(self) -> bool {
        &&& forall|c: int| 0 <= c < self.chunks@.len() ==> (#[trigger] self.chunks@[c]).instances@.len() <= CHUNK_SIZE
        &&& forall|c: int|
            0 <= c < self.chunks@.len() - 1 ==> (#[trigger] self.chunks@[c]).instances@.len() == CHUNK_SIZE
    }

    /// Uploading right after an upload has nothing to do: once every chunk is marked uploaded, no
    /// chunk is named as changed, and taking the changed chunks again leaves the list as it is.
    pub proof fn lemma_upload_twice_changes_nothing(self)
        requires
            forall|c: int| 0 <= c < self.dirty_flags().len() ==> !#[trigger] self.dirty_flags()[c],
        ensures
            dirty_indices(self.dirty_flags(), self.contents().len() as int) == Seq::<usize>::empty(),
            Seq::new(self.contents().len(), |c: int| false) == self.dirty_flags(),
    {
        assert(self.dirty_flags().len() == self.contents().len());
        lemma_clean_flags_name_nothing(self.dirty_flags(), self.contents().len() as int);
        assert(Seq::new(self.contents().len(), |c: int| false) =~= self.dirty_flags());
    }

    /// There is one dirty flag per chunk.
    pub proof fn lemma_one_flag_per_chunk(self)
        ensures
            self.dirty_flags().len() == self.contents().len(),
    {
    }

    /// In a well-formed list every chunk holds at most `CHUNK_SIZE` instances and every chunk but
    /// the last exactly that many.
    pub proof fn lemma_chunk_sizes(self)
        requires
            self.wf(),
        ensures
            forall|c: int| 0 <= c < self.contents().len() ==> (#[trigger] self.contents()[c]).len() <= CHUNK_SIZE,
            forall|c: int| 0 <= c < self.contents().len() - 1 ==> (#[trigger] self.contents()[c]).len() == CHUNK_SIZE,
    {
    }

    /// Instance `n`, in the order added, sits in chunk `n / CHUNK_SIZE` at place `n % CHUNK_SIZE`.
    pub proof fn lemma_chunk_of_item(self, c: int, p: int)
        requires
            self.wf(),
            0 <= c < self.contents().len(),
            0 <= p < self.contents()[c].len(),
        ensures
            self.contents()[c][p] == self.items()[c * CHUNK_SIZE + p],
            (c * CHUNK_SIZE + p) / (CHUNK_SIZE as int) == c,
            (c * CHUNK_SIZE + p) % (CHUNK_SIZE as int) == p,
    {
        assert forall|d: int| 0 <= d < self.contents().len() - 1 implies (#[trigger] self.contents()[d]).len() == CHUNK_SIZE by {
            assert(self.contents()[d] == self.chunks@[d].instances@);
        }
        assert(self.contents()[c].len() <= CHUNK_SIZE) by {
            assert(self.contents()[c] == self.chunks@[c].instances@);
        }
        lemma_flatten_full_runs(self.contents());
        assert((c * 1024 + p) / 1024 == c && (c * 1024 + p) % 1024 == p) by (nonlinear_arith)
            requires
                0 <= p < 1024,
                0 <= c,
        ;
    }

    /// The instances of each chunk.
    pub closed spec fn contents(self) -> Seq<Seq<T>> {
        Seq::new(self.chunks@.len(), |c: int| self.chunks@[c].instances@)
    }

    /// Whether each chunk changed since it was last uploaded.
    pub closed spec fn dirty_flags(self) -> Seq<bool> {
        Seq::new(self.chunks@.len(), |c: int| self.chunks@[c].dirty)
    }

    /// Every instance, in the order it was added.
    pub open spec fn items(self) -> Seq<T> {
        self.contents().flatten()
    }

    /// Whether the next instance needs a new chunk: there is none, or the last is full.
    pub open spec fn spec_needs_new_chunk(self) -> bool {
        self.contents().len() == 0 || self.contents().last().len() >= CHUNK_SIZE
    }

    pub fn new() -> (l: ChunkList<T>)
        ensures
            l.wf(),
            l.contents() == Seq::<Seq<T>>::empty(),
            l.dirty_flags() == Seq::<bool>::empty(),
    {
        let l = ChunkList { chunks: Vec::new() };
        assert(l.contents() =~= Seq::<Seq<T>>::empty());
        assert(l.dirty_flags() =~= Seq::<bool>::empty());
        l
    }

    /// Drops every chunk.
    pub fn clear(&mut self)
        ensures
            final(self).wf(),
            final(self).contents() == Seq::<Seq<T>>::empty(),
            final(self).dirty_flags() == Seq::<bool>::empty(),
    {
        self.chunks = Vec::new();
        assert(self.contents() =~= Seq::<Seq<T>>::empty());
        assert(self.dirty_flags() =~= Seq::<bool>::empty());
    }

    /// Whether the next instance needs a new chunk.
    pub fn needs_new_chunk(&self) -> (r: bool)
        ensures
            r == self.spec_needs_new_chunk(),
    {
        let n = self.chunks.len();
        n == 0 || self.chunks[n - 1].instances.len() >= CHUNK_SIZE
    }

    /// Starts a new, empty chunk, to be uploaded.
    pub fn open_chunk(&mut self)
        requires
            old(self).wf(),
            old(self).spec_needs_new_chunk(),
        ensures
            final(self).wf(),
            final(self).dirty_flags().len() == final(self).contents().len(),
            final(self).contents() == old(self).contents().push(Seq::<T>::empty()),
            final(self).dirty_flags() == old(self).dirty_flags().push(true),
            final(self).items() == old(self).items(),
    {
        let ghost before = self.contents();
        self.chunks.push(Chunk { instances: Vec::new(), dirty: true });
        proof {
            assert(self.contents() =~= before.push(Seq::<T>::empty()));
            assert(self.dirty_flags() =~= old(self).dirty_flags().push(true));
            before.lemma_flatten_push(Seq::<T>::empty());
            assert(before.flatten() + Seq::<T>::empty() =~= before.flatten());
        }
    }

    /// Adds an instance to the last chunk, which has room for it, and marks that chunk changed.
    pub fn push(&mut self, item: T)
        requires
            old(self).wf(),
            !old(self).spec_needs_new_chunk(),
        ensures
            final(self).wf(),
            final(self).dirty_flags().len() == final(self).contents().len(),
            final(self).contents() == old(self).contents().update(
                old(self).contents().len() - 1,
                old(self).contents().last().push(item),
            ),
            final(self).dirty_flags() == old(self).dirty_flags().update(old(self).contents().len() - 1, true),
            final(self).items() == old(self).items().push(item),
    {
        let ghost before = self.contents();
        let n = self.chunks.len();
        self.chunks[n - 1].instances.push(item);
        self.chunks[n - 1].dirty = true;
        proof {
            assert(self.contents() =~= before.update(n - 1, before.last().push(item)));
            assert(self.dirty_flags() =~= old(self).dirty_flags().update(n - 1, true));
            lemma_flatten_grow_last(before, item);
        }
    }

    /// Adds an instance: into the last chunk when it has room, else into a new chunk. Returns
    /// whether a new chunk was opened. The chunk written to is marked changed.
    pub fn add(&mut self, item: T) -> (opened: bool)
        requires
            old(self).wf(),
        ensures
            final(self).wf(),
            opened == old(self).spec_needs_new_chunk(),
            final(self).dirty_flags().len() == final(self).contents().len(),
            opened ==> final(self).contents() == old(self).contents().push(seq![item]),
            opened ==> final(self).dirty_flags() == old(self).dirty_flags().push(true),
            !opened ==> final(self).contents() == old(self).contents().update(
                old(self).contents().len() - 1,
                old(self).contents().last().push(item),
            ),
            !opened ==> final(self).dirty_flags() == old(self).dirty_flags().update(
                old(self).contents().len() - 1,
                true,
            ),
            final(self).contents().last().len() > 0,
            final(self).dirty_flags().last(),
            final(self).items() == old(self).items().push(item),
    {
        let opened = self.needs_new_chunk();
        if opened {
            self.open_chunk();
            proof {
                let e = Seq::<T>::empty();
                assert(e.push(item) =~= seq![item]);
                assert(self.dirty_flags().update(self.contents().len() - 1, true) =~= old(self).dirty_flags().push(true));
            }
        }
        self.push(item);
        opened
    }

    /// The chunks changed since they were last uploaded, in order; marks every chunk uploaded.
    pub fn take_dirty(&mut self) -> (r: Vec<usize>)
        requires
            old(self).wf(),
        ensures
            final(self).wf(),
            final(self).contents() == old(self).contents(),
            final(self).dirty_flags() == Seq::new(old(self).contents().len(), |c: int| false),
            r@ == dirty_indices(old(self).dirty_flags(), old(self).contents().len() as int),
    {
        let mut r: Vec<usize> = Vec::new();
        let n = self.chunks.len();
        let mut c: usize = 0;
        while c < n
            invariant
                self.wf(),
                n == self.chunks@.len(),
                n == old(self).contents().len(),
                c <= n,
                self.contents() == old(self).contents(),
                self.dirty_flags().len() == n,
                forall|d: int| 0 <= d < c ==> !#[trigger] self.dirty_flags()[d],
                forall|d: int| c <= d < n ==> #[trigger] self.dirty_flags()[d] == old(self).dirty_flags()[d],
                r@ == dirty_indices(old(self).dirty_flags(), c as int),
            decreases n - c,
        {
            if self.is_dirty(c) {
                r.push(c);
                self.mark_clean(c);
            }
            c = c + 1;
        }
        proof {
            assert(self.dirty_flags() =~= Seq::new(n as nat, |d: int| false));
        }
        r
    }

    /// The number of chunks.
    pub fn chunk_count(&self) -> (n: usize)
        ensures
            n == self.contents().len(),
    {
        self.chunks.len()
    }

    /// The instances of chunk `c`.
    pub fn chunk(&self, c: usize) -> (r: &Vec<T>)
        requires
            c < self.contents().len(),
        ensures
            r@ == self.contents()[c as int],
    {
        &self.chunks[c].instances
    }

    /// Whether chunk `c` changed since it was last uploaded.
    pub fn is_dirty(&self, c: usize) -> (r: bool)
        requires
            c < self.contents().len(),
        ensures
            r == self.dirty_flags()[c as int],
    {
        self.chunks[c].dirty
    }

    /// Records that chunk `c` has been uploaded.
    pub fn mark_clean(&mut self, c: usize)
        requires
            old(self).wf(),
            c < old(self).contents().len(),
        ensures
            final(self).wf(),
            final(self).dirty_flags().len() == final(self).contents().len(),
            final(self).contents() == old(self).contents(),
            final(self).dirty_flags() == old(self).dirty_flags().update(c as int, false),
    {
        self.chunks[c].dirty = false;
        proof {
            assert(self.contents() =~= old(self).contents());
            assert(self.dirty_flags() =~= old(self).dirty_flags().update(c as int, false));
        }
    }
}

} // verus!
