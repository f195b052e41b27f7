use vstd::prelude::*;

verus! {

/// Open read handles of log files, one per generation, kept in ascending
/// order of generation. Each reader owns its cache; a clone of a store starts
/// with an empty one.
pub struct KvsReader<H> {
    handles: Vec<(u64, H)>,
}

impl<H> KvsReader<H> {
    /// The cached generations and their handles, in ascending order.
    pub closed spec fn entries(&self) -> Seq<(u64, H)> {
        self.handles@
    }

    pub open spec fn generations(&self) -> Seq<u64> {
        self.entries().map_values(|e: (u64, H)| e.0)
    }

    /// The generations are in strictly ascending order.
    pub closed spec fn wf(&self) -> bool {
        forall|i: int, j: int|
            0 <= i < j < self.handles@.len() ==> #[trigger] self.handles@[i].0
                < #[trigger] self.handles@[j].0
    }

    pub fn new() -> (r: KvsReader<H>)
        ensures
            r.wf(),
            r.entries() == Seq::<(u64, H)>::empty(),
    {
        KvsReader { handles: Vec::new() }
    }

    pub fn len(&self) -> (r: usize)
        ensures
            r == self.entries().len(),
    {
        self.handles.len()
    }

    /// Drops the handles of generations older than the watermark `pitr`: they
    /// are the smallest, so what stays is a suffix.
    pub fn close_stale_readers(&mut self, pitr: u64)
        requires
            old(self).wf(),
        ensures
            final(self).wf(),
            final(self).entries().len() <= old(self).entries().len(),
            forall|i: int|
                0 <= i < final(self).entries().len() ==> #[trigger] final(self).entries()[i]
                    == old(self).entries()[i + (old(self).entries().len() - final(self).entries().len())],
            forall|i: int|
                0 <= i < old(self).entries().len() - final(self).entries().len() ==> #[trigger] old(
                    self,
                ).entries()[i].0 < pitr,
            forall|i: int| 0 <= i < final(self).entries().len() ==> #[trigger] final(self).entries()[i].0 >= pitr,
    {
        let mut cut: usize = 0;
        while cut < self.handles.len() && self.handles[cut].0 < pitr
            invariant
                cut <= self.handles@.len(),
                self.handles@ == old(self).handles@,
                old(self).wf(),
                forall|i: int| 0 <= i < cut ==> #[trigger] self.handles@[i].0 < pitr,
            decreases self.handles@.len() - cut,
        {
            cut = cut + 1;
        }
        let kept = self.handles.split_off(cut);
        self.handles = kept;
        proof {
            let o = old(self).handles@;
            assert forall|i: int| 0 <= i < self.handles@.len() implies #[trigger] self.handles@[i].0
                >= pitr by {
                if cut < o.len() {
                    assert(o[cut as int].0 >= pitr);
                    if i > 0 {
                        assert(o[cut as int].0 < o[cut + i].0);
                    }
                }
            }
        }
    }

    /// Takes the handle of `generation` out of the cache, if there is one.
    pub fn take(&mut self, generation: u64) -> (r: Option<H>)
        requires
            old(self).wf(),
        ensures
            final(self).wf(),
            match r {
                Some(h) => exists|i: int|
                    0 <= i < old(self).entries().len() && old(self).entries()[i] == (generation, h)
                        && final(self).entries() == old(self).entries().remove(i),
                None => final(self).entries() == old(self).entries() && forall|i: int|
                    0 <= i < old(self).entries().len() ==> #[trigger] old(self).entries()[i].0 != generation,
            },
    {
        let mut i: usize = 0;
        while i < self.handles.len()
            invariant
                i <= self.handles@.len(),
                self.handles@ == old(self).handles@,
                old(self).wf(),
                forall|j: int| 0 <= j < i ==> #[trigger] self.handles@[j].0 != generation,
            decreases self.handles@.len() - i,
        {
            if self.handles[i].0 == generation {
                let ghost before = self.handles@;
                let (_, h) = self.handles.remove(i);
                proof {
                    assert(before[i as int].1 == h);
                    assert(before[i as int] == (generation, h));
                    assert(self.handles@ == before.remove(i as int));
                    assert(old(self).entries()[i as int] == (generation, h) && self.entries()
                        == old(self).entries().remove(i as int));
                    assert forall|a: int, b: int| 0 <= a < b < self.handles@.len() implies #[trigger] self.handles@[a].0
                        < #[trigger] self.handles@[b].0 by {
                        let a2 = if a < i { a } else { a + 1 };
                        let b2 = if b < i { b } else { b + 1 };
                        assert(self.handles@[a] == before[a2]);
                        assert(self.handles@[b] == before[b2]);
                        assert(before[a2].0 < before[b2].0);
                    }
                }
                return Some(h);
            }
            i = i + 1;
        }
        None
    }

    /// Puts the handle of `generation` into the cache, in its place; a handle
    /// of the same generation that was there is dropped.
    pub fn put(&mut self, generation: u64, handle: H)
        requires
            old(self).wf(),
        ensures
            final(self).wf(),
            final(self).generations().to_set() == old(self).generations().to_set().insert(generation),
            forall|i: int|
                0 <= i < final(self).entries().len() && final(self).entries()[i].0 != generation
                    ==> old(self).entries().contains(#[trigger] final(self).entries()[i]),
            exists|i: int|
                0 <= i < final(self).entries().len() && final(self).entries()[i].0 == generation
                    && final(self).entries()[i].1 == handle,
    {
        let mut pos: usize = 0;
        while pos < self.handles.len() && self.handles[pos].0 < generation
            invariant
                pos <= self.handles@.len(),
                self.handles@ == old(self).handles@,
                old(self).wf(),
                forall|j: int| 0 <= j < pos ==> #[trigger] self.handles@[j].0 < generation,
            decreases self.handles@.len() - pos,
        {
            pos = pos + 1;
        }
        let ghost before = self.handles@;
        if pos < self.handles.len() && self.handles[pos].0 == generation {
            self.handles.set(pos, (generation, handle));
            proof {
                let after = self.handles@;
                assert forall|a: int, b: int| 0 <= a < b < after.len() implies #[trigger] after[a].0
                    < #[trigger] after[b].0 by {
                    assert(before[a].0 < before[b].0);
                }
                assert(after.map_values(|e: (u64, H)| e.0) =~= before.map_values(|e: (u64, H)| e.0));
                assert(before.map_values(|e: (u64, H)| e.0)[pos as int] == generation);
                assert(before.map_values(|e: (u64, H)| e.0).to_set() =~= before.map_values(
                    |e: (u64, H)| e.0,
                ).to_set().insert(generation));
                assert forall|i: int| 0 <= i < after.len() && after[i].0 != generation implies before.contains(
                    #[trigger] after[i],
                ) by {
                    assert(after[i] == before[i]);
                }
                assert(after[pos as int].0 == generation && after[pos as int].1 == handle);
                assert(self.entries()[pos as int].0 == generation && self.entries()[pos as int].1 == handle);
            }
        } else {
            self.handles.insert(pos, (generation, handle));
            proof {
                let after = self.handles@;
                assert forall|a: int, b: int| 0 <= a < b < after.len() implies #[trigger] after[a].0
                    < #[trigger] after[b].0 by {
                    if a < pos && b > pos {
                        assert(after[b] == before[b - 1]);
                        assert(before[a].0 < generation);
                        if pos < before.len() {
                            assert(before[pos as int].0 > generation);
                            if b - 1 > pos {
                                assert(before[pos as int].0 < before[b - 1].0);
                            }
                        }
                    } else if a == pos && b > pos {
                        assert(after[b] == before[b - 1]);
                        assert(before[pos as int].0 > generation);
                        if b - 1 > pos {
                            assert(before[pos as int].0 < before[b - 1].0);
                        }
                    } else if a < pos && b == pos {
                        assert(before[a].0 < generation);
                    } else if a > pos {
                        assert(after[a] == before[a - 1] && after[b] == before[b - 1]);
                        assert(before[a - 1].0 < before[b - 1].0);
                    } else {
                        assert(after[a] == before[a] && after[b] == before[b]);
                        assert(before[a].0 < before[b].0);
                    }
                }
                let gs = after.map_values(|e: (u64, H)| e.0);
                let gb = before.map_values(|e: (u64, H)| e.0);
                assert forall|g: u64| gs.to_set().contains(g) <==> gb.to_set().insert(generation).contains(g) by {
                    if gs.contains(g) {
                        let k = choose|k: int| 0 <= k < gs.len() && gs[k] == g;
                        if k < pos {
                            assert(gb[k] == g);
                        } else if k > pos {
                            assert(gb[k - 1] == g);
                        }
                    }
                    if gb.contains(g) {
                        let k = choose|k: int| 0 <= k < gb.len() && gb[k] == g;
                        if k < pos {
                            assert(gs[k] == g);
                        } else {
                            assert(gs[k + 1] == g);
                        }
                    }
                    if g == generation {
                        assert(gs[pos as int] == g);
                    }
                }
                assert(gs.to_set() =~= gb.to_set().insert(generation));
                assert forall|i: int| 0 <= i < after.len() && after[i].0 != generation implies before.contains(
                    #[trigger] after[i],
                ) by {
                    if i < pos {
                        assert(after[i] == before[i]);
                    } else if i > pos {
                        assert(after[i] == before[i - 1]);
                    }
                }
                assert(after[pos as int].0 == generation && after[pos as int].1 == handle);
                assert(self.entries()[pos as int].0 == generation && self.entries()[pos as int].1 == handle);
            }
        }
    }
}

} // verus!
