//! Random bytes: the operating system's generator, with a pool of further noise stirred in.
use vstd::prelude::*;
use crate::bytes::{append, be_bytes, lemma_be_bytes_len, push_be, to_array};
use crate::crypto::{
    absorb, absorbed, blake3_xof, draw_array, generator_failed, generator_gave, hasher,
    random_error_text, xof,
};
use crate::text::{ascii, ascii_bytes};
use crate::CoreError;

verus! {

/// A pool of noise. Whatever is stirred in, each draw also takes fresh bytes of the operating
/// system.
pub struct EntropyHarvester {
    pool: blake3::Hasher,
    draws: u64,
}

/// What stirring `data` into the pool adds to it.
pub open spec fn stirred(data: Seq<u8>) -> Seq<u8> {
    be_bytes(data.len(), 8) + data
}

impl EntropyHarvester {
    /// Everything that has gone into the pool.
    pub closed spec fn pool(self) -> Seq<u8> {
        absorbed(self.pool)
    }

    /// The number of draws, modulo the range of the counter.
    pub closed spec fn draws(self) -> u64 {
        self.draws
    }

    /// A pool that begins with the given seed.
    pub fn seeded(seed: &[u8; 32]) -> (r: EntropyHarvester)
        ensures
            r.pool() == ascii("dc-entropy-v1"@) + seed@,
            r.draws() == 0,
    {
        let mut pool = hasher();
        let tag = ascii_bytes("dc-entropy-v1");
        absorb(&mut pool, tag.as_slice());
        absorb(&mut pool, seed.as_slice());
        assert(absorbed(pool) =~= ascii("dc-entropy-v1"@) + seed@);
        EntropyHarvester { pool, draws: 0 }
    }

    /// A pool that begins with a seed of the operating system.
    pub fn new() -> (r: Result<EntropyHarvester, CoreError>)
        ensures
            match r {
                Ok(h) => h.draws() == 0 && exists|seed: Seq<u8>| #[trigger]
                    generator_gave(32, seed) && h.pool() == ascii("dc-entropy-v1"@) + seed,
                Err(e) => generator_failed(32) && e is Entropy,
            },
    {
        match draw_array::<32>() {
            Ok(seed) => Ok(EntropyHarvester::seeded(&seed)),
            Err(e) => Err(CoreError::Entropy(random_error_text(&e))),
        }
    }

    /// Stirs in more noise. Any input is safe.
    pub fn mix(&mut self, data: &[u8])
        ensures
            final(self).pool() == old(self).pool() + stirred(data@),
            final(self).draws() == old(self).draws(),
    {
        let mut block: Vec<u8> = Vec::new();
        push_be(&mut block, data.len() as u64, 8);
        append(&mut block, data);
        assert(block@ =~= stirred(data@));
        absorb(&mut self.pool, block.as_slice());
    }

    /// The pool of a harvester after a draw that brought the given fresh bytes.
    pub open spec fn pool_after(self, fresh: Seq<u8>) -> Seq<u8> {
        self.pool() + stirred(fresh) + be_bytes(self.draws_after() as nat, 8)
    }

    /// The number of draws after one more.
    pub open spec fn draws_after(self) -> u64 {
        if self.draws() == u64::MAX {
            0
        } else {
            (self.draws() + 1) as u64
        }
    }

    /// Fills `out` with bytes drawn from the pool, after the given fresh bytes and the number of the
    /// draw went into it.
    pub fn draw_with(&mut self, fresh: &[u8; 32], out: &mut [u8])
        ensures
            final(self).draws() == old(self).draws_after(),
            final(self).pool() == old(self).pool_after(fresh@),
            final(out)@ == blake3_xof(final(self).pool(), old(out)@.len()),
            final(out)@.len() == old(out)@.len(),
    {
        self.mix(fresh.as_slice());
        self.draws = if self.draws == u64::MAX {
            0
        } else {
            self.draws + 1
        };
        let mut count: Vec<u8> = Vec::new();
        push_be(&mut count, self.draws, 8);
        absorb(&mut self.pool, count.as_slice());
        let bytes: Vec<u8> = xof(&self.pool, out.len());
        let mut i: usize = 0;
        while i < out.len()
            invariant
                i <= out@.len(),
                out@.len() == old(out)@.len(),
                bytes@.len() == out@.len(),
                forall|k: int| 0 <= k < i ==> out@[k] == bytes@[k],
            decreases out@.len() - i,
        {
            out[i] = bytes[i];
            i = i + 1;
        }
        assert(out@ =~= bytes@);
    }

    /// Fills `out` with bytes drawn from the pool, after fresh bytes of the operating system
    /// and the number of the draw went into it.
    pub fn draw(&mut self, out: &mut [u8]) -> (r: Result<(), CoreError>)
        ensures
            final(out)@.len() == old(out)@.len(),
            match r {
                Ok(_) => {
                    &&& final(self).draws() == old(self).draws_after()
                    &&& exists|fresh: Seq<u8>| #[trigger]
                        generator_gave(32, fresh) && final(self).pool() == old(self).pool_after(
                            fresh,
                        )
                    &&& final(out)@ == blake3_xof(final(self).pool(), old(out)@.len())
                },
                Err(e) => generator_failed(32) && e is Entropy
                    && final(self).pool() == old(self).pool()
                    && final(self).draws() == old(self).draws() && final(out)@ == old(out)@,
            },
    {
        match draw_array::<32>() {
            Ok(fresh) => {
                self.draw_with(&fresh, out);
                Ok(())
            },
            Err(e) => Err(CoreError::Entropy(random_error_text(&e))),
        }
    }

    /// 512 random bits.
    pub fn token512(&mut self) -> (r: Result<[u8; 64], CoreError>)
        ensures
            match r {
                Ok(t) => {
                    &&& final(self).draws() == old(self).draws_after()
                    &&& exists|fresh: Seq<u8>| #[trigger]
                        generator_gave(32, fresh) && final(self).pool() == old(self).pool_after(
                            fresh,
                        )
                    &&& t@ == blake3_xof(final(self).pool(), 64)
                },
                Err(e) => generator_failed(32) && e is Entropy
                    && final(self).pool() == old(self).pool()
                    && final(self).draws() == old(self).draws(),
            },
    {
        let mut t: Vec<u8> = vec![0; 64];
        self.draw(t.as_mut_slice())?;
        assert(t@.take(64) =~= t@);
        Ok(to_array::<64>(t.as_slice()))
    }
}

/// A draw forgets nothing of the pool, puts all of the fresh bytes in, and counts itself: pools that differ,
/// or that got different bytes, differ after it.
pub proof fn law_draw_stirs_everything_in(a: EntropyHarvester, b: EntropyHarvester, x: Seq<u8>, y: Seq<u8>)
    ensures
        a.pool_after(x).take(a.pool().len() as int) == a.pool(),
        a.pool_after(x).subrange(a.pool().len() as int + 8, a.pool().len() as int + 8 + x.len()) == x,
        a.pool_after(x).len() == a.pool().len() + x.len() + 16,
        a.pool() == b.pool() && x != y ==> a.pool_after(x) != b.pool_after(y),
        a.draws() < u64::MAX ==> a.draws_after() == a.draws() + 1,
{
    broadcast use lemma_be_bytes_len;

    let n = a.pool().len() as int;
    assert(a.pool_after(x).take(n) =~= a.pool());
    assert(a.pool_after(x).subrange(n + 8, n + 8 + x.len()) =~= x);
    if a.pool() == b.pool() && a.pool_after(x) == b.pool_after(y) {
        assert(b.pool_after(y).subrange(n + 8, n + 8 + y.len()) =~= y);
        assert(b.pool_after(y).len() == n + y.len() + 16);
        assert(x =~= y);
    }
}

} // verus!
