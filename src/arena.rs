use vstd::prelude::*;

use vstd::string::StringSliceAdditionalSpecFns;

verus! {

/// Where an allocation lies in an arena: `len` bytes from byte `start`.
#[derive(Debug, Clone, Copy, PartialEq, Eq, Structural)]
pub struct Span {
    pub start: usize,
    pub len: usize,
}

/// A bump arena: one region of `capacity` bytes, filled from the start; allocations are never
/// freed one by one, and `reset` rewinds to the start.
pub struct BumpArena {
    buf: Vec<u8>,
    total_size: usize,
}

impl BumpArena {
    /// The bytes written so far.
    pub closed spec fn contents(&self) -> Seq<u8> {
        self.buf@
    }

    pub closed spec fn capacity_spec(&self) -> nat {
        self.total_size as nat
    }

    pub closed spec fn wf(&self) -> bool {
        self.buf@.len() <= self.total_size
    }

    /// The bytes at `span`.
    pub open spec fn span_bytes(&self, span: Span) -> Seq<u8> {
        self.contents().subrange(span.start as int, span.start + span.len)
    }

    /// `span` lies inside what has been written.
    pub open spec fn holds(&self, span: Span) -> bool {
        span.start + span.len <= self.contents().len()
    }

    /// An arena of `size` bytes.
    pub fn new(size: usize) -> (r: Self)
        requires
            size > 0,
        ensures
            r.wf(),
            r.capacity_spec() == size,
            r.contents().len() == 0,
    {
        BumpArena { buf: Vec::new(), total_size: size }
    }

    /// Copies `src` into the arena, right after what it holds; `None`, with the arena
    /// unchanged, when the bytes do not fit.
    pub fn alloc_slice(&mut self, src: &[u8]) -> (r: Option<Span>)
        requires
            old(self).wf(),
        ensures
            final(self).wf(),
            final(self).capacity_spec() == old(self).capacity_spec(),
            match r {
                Some(span) => {
                    &&& old(self).contents().len() + src@.len() <= old(self).capacity_spec()
                    &&& final(self).contents() == old(self).contents() + src@
                    &&& span.start == old(self).contents().len() && span.len == src@.len()
                },
                None => {
                    &&& old(self).contents().len() + src@.len() > old(self).capacity_spec()
                    &&& final(self).contents() == old(self).contents()
                },
            },
    {
        let used = self.buf.len();
        if src.len() > self.total_size - used {
            return None;
        }
        let ghost before = self.buf@;
        let mut i: usize = 0;
        while i < src.len()
            invariant
                i <= src@.len(),
                self.buf@ == before + src@.take(i as int),
                self.total_size == old(self).total_size,
                before == old(self).buf@,
                before.len() + src@.len() <= self.total_size,
            decreases src@.len() - i,
        {
            self.buf.push(src[i]);
            i += 1;
            assert(self.buf@ =~= before + src@.take(i as int));
        }
        assert(src@.take(src@.len() as int) =~= src@);
        Some(Span { start: used, len: src.len() })
    }

    /// Copies the bytes of `src` into the arena.
    pub fn alloc_str(&mut self, src: &str) -> (r: Option<Span>)
        requires
            old(self).wf(),
        ensures
            final(self).wf(),
            final(self).capacity_spec() == old(self).capacity_spec(),
            match r {
                Some(span) => {
                    &&& old(self).contents().len() + src.spec_bytes().len() <= old(self).capacity_spec()
                    &&& final(self).contents() == old(self).contents() + src.spec_bytes()
                    &&& span.start == old(self).contents().len() && span.len == src.spec_bytes().len()
                },
                None => {
                    &&& old(self).contents().len() + src.spec_bytes().len() > old(self).capacity_spec()
                    &&& final(self).contents() == old(self).contents()
                },
            },
    {
        self.alloc_slice(src.as_bytes())
    }

    /// The bytes at `span`.
    pub fn get(&self, span: Span) -> (r: &[u8])
        requires
            self.holds(span),
        ensures
            r@ == self.span_bytes(span),
    {
        let written = self.buf.len();
        assert(span.start + span.len <= written);
        vstd::slice::slice_subrange(self.buf.as_slice(), span.start, span.start + span.len)
    }

    /// Rewinds to the start; every span handed out so far is void.
    pub fn reset(&mut self)
        requires
            old(self).wf(),
        ensures
            final(self).wf(),
            final(self).contents().len() == 0,
            final(self).capacity_spec() == old(self).capacity_spec(),
    {
        self.buf.clear();
    }

    /// How many bytes are in use.
    pub fn used(&self) -> (r: usize)
        ensures
            r == self.contents().len(),
    {
        self.buf.len()
    }

    /// The size of the region.
    pub fn capacity(&self) -> (r: usize)
        ensures
            r == self.capacity_spec(),
    {
        self.total_size
    }
}

/// `after` holds what `before` held, and possibly more after it.
pub open spec fn grows(before: BumpArena, after: BumpArena) -> bool {
    &&& before.contents().len() <= after.contents().len()
    &&& after.contents().take(before.contents().len() as int) == before.contents()
}

/// Growth is transitive.
pub proof fn lemma_grows_trans(a: BumpArena, b: BumpArena, c: BumpArena)
    requires
        grows(a, b),
        grows(b, c),
    ensures
        grows(a, c),
{
    assert(c.contents().take(a.contents().len() as int) =~= b.contents().take(a.contents().len() as int)) by {
        assert forall|i: int| 0 <= i < a.contents().len() implies c.contents()[i] == b.contents()[i] by {
            assert(c.contents().take(b.contents().len() as int)[i] == b.contents()[i]);
        }
    }
}

/// A span held before growth is held after it, with the same bytes.
pub proof fn lemma_grows_keeps(before: BumpArena, after: BumpArena)
    requires
        grows(before, after),
    ensures
        forall|span: Span| before.holds(span) ==> after.holds(span) && after.span_bytes(span)
            == before.span_bytes(span),
{
    assert forall|span: Span| before.holds(span) implies after.holds(span) && after.span_bytes(span)
        == before.span_bytes(span) by {
        assert forall|i: int| 0 <= i < span.len implies after.span_bytes(span)[i] == before.span_bytes(span)[i] by {
            assert(after.contents().take(before.contents().len() as int)[span.start + i] == before.contents()[span.start + i]);
        }
        assert(after.span_bytes(span) =~= before.span_bytes(span));
    }
}

/// What was written before an allocation stays as it was, and `used` only grows.
pub proof fn lemma_arena_monotone(before: BumpArena, after: BumpArena, src: Seq<u8>)
    requires
        after.contents() == before.contents() + src,
    ensures
        after.contents().len() >= before.contents().len(),
        grows(before, after),
        forall|span: Span| before.holds(span) ==> after.holds(span) && after.span_bytes(span)
            == before.span_bytes(span),
{
    assert(after.contents().take(before.contents().len() as int) =~= before.contents());
    assert forall|span: Span| before.holds(span) implies after.holds(span) && after.span_bytes(span)
        == before.span_bytes(span) by {
        assert(after.span_bytes(span) =~= before.span_bytes(span));
    }
}

} // verus!
