//! Logical concatenation of several byte sources into one stream.
//!
//! The codec treats a list of sources as a single uninterrupted byte
//! sequence, so a run may span the boundary between two sources.

use vstd::prelude::*;

verus! {

/// The single logical stream formed by the given sources, in order.
pub open spec fn concat_of(sources: Seq<Seq<u8>>) -> Seq<u8>
    decreases sources.len(),
{
    if sources.len() == 0 {
        Seq::empty()
    } else {
        concat_of(sources.drop_last()) + sources.last()
    }
}

/// Appends all of `src` to the end of `dst`.
pub fn extend_bytes(dst: &mut Vec<u8>, src: &Vec<u8>)
    ensures
        final(dst)@ == old(dst)@ + src@,
{
    let mut j: usize = 0;
    while j < src.len()
        invariant
            j <= src@.len(),
            dst@ == old(dst)@ + src@.take(j as int),
        decreases src@.len() - j,
    {
        dst.push(src[j]);
        j = j + 1;
        assert(old(dst)@ + src@.take(j - 1) + seq![src@[j - 1]] =~= old(dst)@ + src@.take(
            j as int,
        ));
    }
    assert(old(dst)@ + src@.take(src@.len() as int) =~= old(dst)@ + src@);
}

/// Flattens the sources into the one logical byte stream they form.
pub fn concat_sources(sources: &Vec<Vec<u8>>) -> (r: Vec<u8>)
    ensures
        r@ == concat_of(sources@.map_values(|s: Vec<u8>| s@)),
{
    let ghost views = sources@.map_values(|s: Vec<u8>| s@);
    let mut out: Vec<u8> = Vec::new();
    let mut k: usize = 0;
    while k < sources.len()
        invariant
            k <= sources@.len(),
            views == sources@.map_values(|s: Vec<u8>| s@),
            out@ == concat_of(views.take(k as int)),
        decreases sources@.len() - k,
    {
        extend_bytes(&mut out, &sources[k]);
        k = k + 1;
        assert(views.take(k as int).drop_last() =~= views.take(k - 1));
        assert(views.take(k as int).last() == sources@[k - 1]@);
    }
    assert(views.take(sources@.len() as int) =~= views);
    out
}

} // verus!
