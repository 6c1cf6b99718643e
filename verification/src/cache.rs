use crate::pixel::{pixel_hash, zero_pixel, Pixel};
use vstd::prelude::*;

verus! {

/// The cache contents before any pixel is stored: 64 zero pixels.
pub open spec fn initial_cache() -> Seq<Pixel> {
    Seq::new(64, |i: int| zero_pixel())
}

/// The pixel most recently emitted whose hash is `h`, or the zero pixel if
/// none has been emitted yet.
pub open spec fn most_recent_with_hash(emitted: Seq<Pixel>, h: int) -> Pixel
    decreases emitted.len(),
{
    if emitted.len() == 0 {
        zero_pixel()
    } else if pixel_hash(emitted.last()) == h {
        emitted.last()
    } else {
        most_recent_with_hash(emitted.drop_last(), h)
    }
}

/// The cache invariant: every slot holds the most recently emitted pixel
/// with that slot's hash, or the zero pixel if none yet.
pub open spec fn cache_tracks(cache: Seq<Pixel>, emitted: Seq<Pixel>) -> bool {
    &&& cache.len() == 64
    &&& forall|h: int| 0 <= h < 64 ==> cache[h] == most_recent_with_hash(emitted, h)
}

/// The empty history is tracked by the all-zero cache.
pub proof fn lemma_cache_tracks_empty()
    ensures
        cache_tracks(initial_cache(), Seq::<Pixel>::empty()),
{
}

/// Storing an emitted pixel at its hash slot keeps the cache invariant.
pub proof fn lemma_cache_tracks_push(cache: Seq<Pixel>, emitted: Seq<Pixel>, px: Pixel)
    requires
        cache_tracks(cache, emitted),
    ensures
        cache_tracks(cache.update(pixel_hash(px), px), emitted.push(px)),
{
    let cache2 = cache.update(pixel_hash(px), px);
    let emitted2 = emitted.push(px);
    assert(emitted2.drop_last() =~= emitted);
    assert forall|h: int| 0 <= h < 64 implies cache2[h] == most_recent_with_hash(emitted2, h) by {
        if h == pixel_hash(px) {
            assert(most_recent_with_hash(emitted2, h) == px);
        } else {
            assert(most_recent_with_hash(emitted2, h) == most_recent_with_hash(emitted, h));
        }
    }
}

/// A 64-slot direct-mapped cache of recently seen pixels, addressed by each
/// pixel's 6-bit hash.  Encoder and decoder mutate their copies in lock-step.
pub struct HashIndexedArray {
    slots: Vec<Pixel>,
}

impl HashIndexedArray {
    /// The cache contents, slot by slot.
    pub closed spec fn pixels(&self) -> Seq<Pixel> {
        self.slots@
    }

    /// Well-formedness: exactly 64 slots.
    pub closed spec fn wf(&self) -> bool {
        self.slots@.len() == 64
    }

    /// A fresh cache with every slot holding the zero pixel.
    pub fn new() -> (r: Self)
        ensures
            r.wf(),
            r.pixels() == initial_cache(),
    {
        let mut slots: Vec<Pixel> = Vec::with_capacity(64);
        let mut i: usize = 0;
        while i < 64
            invariant
                i <= 64,
                slots@ =~= Seq::new(i as nat, |k: int| zero_pixel()),
            decreases 64 - i,
        {
            slots.push(Pixel { r: 0, g: 0, b: 0, a: 0 });
            i += 1;
        }
        proof {
            assert(slots@ =~= initial_cache());
        }
        HashIndexedArray { slots }
    }

    /// Reads the slot at a 6-bit hash.
    pub fn fetch(&self, h: u8) -> (r: Pixel)
        requires
            self.wf(),
            h < 64,
        ensures
            r == self.pixels()[h as int],
    {
        self.slots[h as usize]
    }

    /// Stores a pixel at the slot its hash addresses.
    pub fn store(&mut self, px: Pixel)
        requires
            old(self).wf(),
        ensures
            final(self).wf(),
            final(self).pixels() == old(self).pixels().update(pixel_hash(px), px),
    {
        let h = px.hash_index();
        self.slots[h as usize] = px;
    }
}

} // verus!
